//! Opt-in analysis and repair of a visible graph snapshot.
//!
//! The graph CRDT accepts cycles; these helpers never take part in merging.
//! Analysis is iterative and deterministic, and it creates no operations.
use vstd::prelude::*;
use crate::ids::{ID, GraphNodeId, GraphEdgeId, id_lt, id_less};
use crate::idmap::{IdMap, sorted_ids};
use crate::life::copy_ids;

verus! {

/// An immutable edge of a visible graph snapshot.
#[derive(Debug, Clone, Copy, PartialEq, Eq, Structural)]
pub struct GraphSnapshotEdge {
    pub id: GraphEdgeId,
    pub source: GraphNodeId,
    pub target: GraphNodeId,
}

/// Visible nodes and edges of one graph at one version, both ascending by identity.
#[derive(Debug, Clone, PartialEq, Eq)]
pub struct GraphSnapshot {
    graph: ID,
    version: Vec<ID>,
    nodes: Vec<GraphNodeId>,
    edges: Vec<GraphSnapshotEdge>,
}

pub open spec fn snapshot_node_ids(s: Seq<GraphNodeId>) -> Seq<ID> {
    s.map_values(|x: GraphNodeId| x.spec_id())
}

pub open spec fn snapshot_edge_ids(s: Seq<GraphSnapshotEdge>) -> Seq<ID> {
    s.map_values(|x: GraphSnapshotEdge| x.id.spec_id())
}

/// The nodes ascending by identity; the identities must be distinct.
fn sort_nodes(v: Vec<GraphNodeId>) -> (r: Vec<GraphNodeId>)
    requires
        snapshot_node_ids(v@).no_duplicates(),
    ensures
        sorted_ids(snapshot_node_ids(r@)),
        r@.len() == v@.len(),
        forall|x: GraphNodeId| #[trigger] r@.contains(x) <==> v@.contains(x),
{
    let mut r: Vec<GraphNodeId> = Vec::new();
    let mut i: usize = 0;
    while i < v.len()
        invariant
            snapshot_node_ids(v@).no_duplicates(),
            i <= v@.len(),
            r@.len() == i,
            forall|a: int, b: int| 0 <= a < b < r@.len() ==> id_lt((#[trigger] r@[a]).spec_id(), (#[trigger] r@[b]).spec_id()),
            forall|x: GraphNodeId| #[trigger] r@.contains(x) <==> v@.take(i as int).contains(x),
        decreases v@.len() - i,
    {
        let x = v[i];
        let mut j: usize = r.len();
        while j > 0 && id_less(x.id(), r[j - 1].id())
            invariant
                j <= r@.len(),
                forall|q: int| j <= q < r@.len() ==> id_lt(x.spec_id(), (#[trigger] r@[q]).spec_id()),
            decreases j,
        {
            j -= 1;
        }
        proof {
            assert forall|q: int| 0 <= q < r@.len() implies (#[trigger] r@[q]).spec_id() != x.spec_id() by {
                assert(r@.contains(r@[q]));
                let k = choose|k: int| 0 <= k < i && v@.take(i as int)[k] == r@[q];
                assert(snapshot_node_ids(v@)[k] != snapshot_node_ids(v@)[i as int]);
            }
        }
        let ghost r0 = r@;
        r.insert(j, x);
        proof {
            assert(r@ =~= r0.insert(j as int, x));
            if j > 0 {
                assert(r0[j - 1].spec_id() != x.spec_id());
            }
            assert forall|a: int, b: int| 0 <= a < b < r@.len() implies id_lt((#[trigger] r@[a]).spec_id(), (#[trigger] r@[b]).spec_id()) by {
                if b < j {
                    assert(r@[a] == r0[a] && r@[b] == r0[b]);
                } else if b == j {
                    assert(r@[a] == r0[a]);
                    if a < j - 1 {
                        assert(id_lt(r0[a].spec_id(), r0[j - 1].spec_id()));
                    }
                } else if a < j {
                    assert(r@[a] == r0[a] && r@[b] == r0[b - 1]);
                    assert(id_lt(x.spec_id(), r0[b - 1].spec_id()));
                    if a < j - 1 {
                        assert(id_lt(r0[a].spec_id(), r0[j - 1].spec_id()));
                    }
                } else if a == j {
                    assert(r@[b] == r0[b - 1]);
                } else {
                    assert(r@[a] == r0[a - 1] && r@[b] == r0[b - 1]);
                }
            }
            assert(v@.take(i + 1) =~= v@.take(i as int).push(x));
            assert forall|y: GraphNodeId| #[trigger] r@.contains(y) <==> v@.take(i + 1).contains(y) by {
                if r@.contains(y) {
                    let k = choose|k: int| 0 <= k < r@.len() && r@[k] == y;
                    if k < j {
                        assert(r0[k] == y);
                        assert(r0.contains(y));
                    } else if k > j {
                        assert(r0[k - 1] == y);
                        assert(r0.contains(y));
                    }
                    if y != x {
                        assert(v@.take(i as int).contains(y));
                        let q = choose|q: int| 0 <= q < i && #[trigger] v@.take(i as int)[q] == y;
                        assert(v@.take(i + 1)[q] == y);
                    } else {
                        assert(v@.take(i + 1)[i as int] == y);
                    }
                }
                if v@.take(i + 1).contains(y) {
                    let q = choose|q: int| 0 <= q < i + 1 && #[trigger] v@.take(i + 1)[q] == y;
                    if q < i {
                        assert(v@.take(i as int)[q] == y);
                        assert(r0.contains(y));
                        let k = choose|k: int| 0 <= k < r0.len() && r0[k] == y;
                        if k < j {
                            assert(r@[k] == y);
                        } else {
                            assert(r@[k + 1] == y);
                        }
                    } else {
                        assert(r@[j as int] == y);
                    }
                }
            }
        }
        i += 1;
    }
    proof {
        assert(v@.take(i as int) =~= v@);
    }
    r
}

/// The edges ascending by identity; the identities must be distinct.
fn sort_edges(v: Vec<GraphSnapshotEdge>) -> (r: Vec<GraphSnapshotEdge>)
    requires
        snapshot_edge_ids(v@).no_duplicates(),
    ensures
        sorted_ids(snapshot_edge_ids(r@)),
        r@.len() == v@.len(),
        forall|x: GraphSnapshotEdge| #[trigger] r@.contains(x) <==> v@.contains(x),
{
    let mut r: Vec<GraphSnapshotEdge> = Vec::new();
    let mut i: usize = 0;
    while i < v.len()
        invariant
            snapshot_edge_ids(v@).no_duplicates(),
            i <= v@.len(),
            r@.len() == i,
            forall|a: int, b: int| 0 <= a < b < r@.len() ==> id_lt((#[trigger] r@[a]).id.spec_id(), (#[trigger] r@[b]).id.spec_id()),
            forall|x: GraphSnapshotEdge| #[trigger] r@.contains(x) <==> v@.take(i as int).contains(x),
        decreases v@.len() - i,
    {
        let x = v[i];
        let mut j: usize = r.len();
        while j > 0 && id_less(x.id.id(), r[j - 1].id.id())
            invariant
                j <= r@.len(),
                forall|q: int| j <= q < r@.len() ==> id_lt(x.id.spec_id(), (#[trigger] r@[q]).id.spec_id()),
            decreases j,
        {
            j -= 1;
        }
        proof {
            assert forall|q: int| 0 <= q < r@.len() implies (#[trigger] r@[q]).id.spec_id() != x.id.spec_id() by {
                assert(r@.contains(r@[q]));
                let k = choose|k: int| 0 <= k < i && v@.take(i as int)[k] == r@[q];
                assert(snapshot_edge_ids(v@)[k] != snapshot_edge_ids(v@)[i as int]);
            }
        }
        let ghost r0 = r@;
        r.insert(j, x);
        proof {
            assert(r@ =~= r0.insert(j as int, x));
            if j > 0 {
                assert(r0[j - 1].id.spec_id() != x.id.spec_id());
            }
            assert forall|a: int, b: int| 0 <= a < b < r@.len() implies id_lt((#[trigger] r@[a]).id.spec_id(), (#[trigger] r@[b]).id.spec_id()) by {
                if b < j {
                    assert(r@[a] == r0[a] && r@[b] == r0[b]);
                } else if b == j {
                    assert(r@[a] == r0[a]);
                    if a < j - 1 {
                        assert(id_lt(r0[a].id.spec_id(), r0[j - 1].id.spec_id()));
                    }
                } else if a < j {
                    assert(r@[a] == r0[a] && r@[b] == r0[b - 1]);
                    assert(id_lt(x.id.spec_id(), r0[b - 1].id.spec_id()));
                    if a < j - 1 {
                        assert(id_lt(r0[a].id.spec_id(), r0[j - 1].id.spec_id()));
                    }
                } else if a == j {
                    assert(r@[b] == r0[b - 1]);
                } else {
                    assert(r@[a] == r0[a - 1] && r@[b] == r0[b - 1]);
                }
            }
            assert(v@.take(i + 1) =~= v@.take(i as int).push(x));
            assert forall|y: GraphSnapshotEdge| #[trigger] r@.contains(y) <==> v@.take(i + 1).contains(y) by {
                if r@.contains(y) {
                    let k = choose|k: int| 0 <= k < r@.len() && r@[k] == y;
                    if k < j {
                        assert(r0[k] == y);
                        assert(r0.contains(y));
                    } else if k > j {
                        assert(r0[k - 1] == y);
                        assert(r0.contains(y));
                    }
                    if y != x {
                        assert(v@.take(i as int).contains(y));
                        let q = choose|q: int| 0 <= q < i && #[trigger] v@.take(i as int)[q] == y;
                        assert(v@.take(i + 1)[q] == y);
                    } else {
                        assert(v@.take(i + 1)[i as int] == y);
                    }
                }
                if v@.take(i + 1).contains(y) {
                    let q = choose|q: int| 0 <= q < i + 1 && #[trigger] v@.take(i + 1)[q] == y;
                    if q < i {
                        assert(v@.take(i as int)[q] == y);
                        assert(r0.contains(y));
                        let k = choose|k: int| 0 <= k < r0.len() && r0[k] == y;
                        if k < j {
                            assert(r@[k] == y);
                        } else {
                            assert(r@[k + 1] == y);
                        }
                    } else {
                        assert(r@[j as int] == y);
                    }
                }
            }
        }
        i += 1;
    }
    proof {
        assert(v@.take(i as int) =~= v@);
    }
    r
}

impl GraphSnapshot {
    pub closed spec fn spec_graph(&self) -> ID {
        self.graph
    }

    pub closed spec fn spec_version(&self) -> Seq<ID> {
        self.version@
    }

    pub closed spec fn spec_nodes(&self) -> Seq<GraphNodeId> {
        self.nodes@
    }

    pub closed spec fn spec_edges(&self) -> Seq<GraphSnapshotEdge> {
        self.edges@
    }

    /// A snapshot of `graph` at `version`, its nodes and edges sorted ascending by
    /// identity; the given nodes, and the given edges, carry distinct identities.
    pub fn new(graph: ID, version: Vec<ID>, nodes: Vec<GraphNodeId>, edges: Vec<GraphSnapshotEdge>) -> (r: GraphSnapshot)
        requires
            snapshot_node_ids(nodes@).no_duplicates(),
            snapshot_edge_ids(edges@).no_duplicates(),
        ensures
            r.spec_graph() == graph,
            r.spec_version() == version@,
            r.spec_nodes().len() == nodes@.len(),
            forall|x: GraphNodeId| #[trigger] r.spec_nodes().contains(x) <==> nodes@.contains(x),
            r.spec_edges().len() == edges@.len(),
            forall|x: GraphSnapshotEdge| #[trigger] r.spec_edges().contains(x) <==> edges@.contains(x),
            r.wf(),
    {
        let nodes = sort_nodes(nodes);
        let edges = sort_edges(edges);
        GraphSnapshot { graph, version, nodes, edges }
    }

    pub closed spec fn wf(&self) -> bool {
        sorted_ids(snapshot_node_ids(self.nodes@)) && sorted_ids(snapshot_edge_ids(self.edges@))
    }

    pub fn graph(&self) -> (r: ID)
        ensures
            r == self.spec_graph(),
    {
        self.graph
    }

    pub fn version(&self) -> (r: &Vec<ID>)
        ensures
            r@ == self.spec_version(),
    {
        &self.version
    }

    pub fn nodes(&self) -> (r: &Vec<GraphNodeId>)
        ensures
            r@ == self.spec_nodes(),
    {
        &self.nodes
    }

    pub fn edges(&self) -> (r: &Vec<GraphSnapshotEdge>)
        ensures
            r@ == self.spec_edges(),
    {
        &self.edges
    }
}

/// Analysis and repair failures; none of them retries or widens the scope.
#[derive(Debug, Clone, Copy, PartialEq, Eq, Structural)]
pub enum GraphRepairError {
    /// Commit pending local edits explicitly before graph analysis or repair.
    UncommittedChanges,
    /// The graph repair plan was made for a different version.
    StalePlan,
    /// The graph repair plan belongs to another graph container.
    WrongGraph,
    /// Graph snapshots require an attached container.
    DetachedContainer,
    /// A selected edge is not visible in the snapshot.
    InvalidSelection(GraphEdgeId),
    /// Invalid graph repair plan, or one that cannot be written.
    InvalidPlan,
}

/// The edges an analysis looks at. A selection is canonical: ascending, no repeats.
#[derive(Debug, Clone, PartialEq, Eq)]
pub enum GraphScope {
    AllVisible,
    Selected(Vec<GraphEdgeId>),
}

/// Repair policies are local planning choices, never replicated commands.
#[derive(Debug, Clone, Copy, PartialEq, Eq, Structural)]
pub enum RepairPolicy {
    /// In each cyclic strongly connected component keep only edges whose source
    /// identity is below the target's; edges between components and edges outside
    /// the scope are untouched. This is not a minimum feedback edge set.
    AscendingNodeIdV1,
}

impl RepairPolicy {
    /// The stable name of the policy.
    pub fn id(self) -> (r: &'static str)
        ensures
            r@ == "ascending-node-id"@,
    {
        "ascending-node-id"
    }

    /// The version of the policy.
    pub fn version(self) -> (r: u32)
        ensures
            r == 1,
    {
        1
    }
}

/// Why an edge is in a repair plan.
#[derive(Debug, Clone, Copy, PartialEq, Eq, Structural)]
pub enum RepairReason {
    SelfLoop,
    /// Index in the component list of the cycle report.
    DescendingEdgeInComponent { component: usize },
}

#[derive(Debug, Clone, Copy, PartialEq, Eq, Structural)]
pub struct RepairDeletion {
    pub edge: GraphEdgeId,
    pub reason: RepairReason,
}

/// One cyclic strongly connected component and a directed cycle through it.
#[derive(Debug, Clone, PartialEq, Eq)]
pub struct CyclicComponent {
    /// Ascending identities; a single node is cyclic only with a self-loop.
    pub nodes: Vec<GraphNodeId>,
    /// Edge identities forming one directed cycle.
    pub witness: Vec<GraphEdgeId>,
}

#[derive(Debug, Clone, PartialEq, Eq)]
pub struct CycleReport {
    /// All components, isolated nodes included, ordered by their smallest node.
    pub components: Vec<Vec<GraphNodeId>>,
    pub cyclic_components: Vec<CyclicComponent>,
    pub self_loops: Vec<GraphEdgeId>,
    pub scope: GraphScope,
}

impl CycleReport {
    pub fn is_acyclic(&self) -> (r: bool)
        ensures
            r == (self.cyclic_components@.len() == 0),
    {
        self.cyclic_components.len() == 0
    }
}

/// An immutable plan of edge deletions made by `plan_break_cycles`.
///
/// Applying it writes only ordinary edge deletions. New edges and restored objects
/// may create cycles again; concurrent plans converge by deleting their union.
#[derive(Debug, Clone, PartialEq, Eq)]
pub struct RepairPlan {
    graph: ID,
    version: Vec<ID>,
    policy: RepairPolicy,
    scope: GraphScope,
    deletions: Vec<RepairDeletion>,
}

impl RepairPlan {
    pub closed spec fn spec_graph(&self) -> ID {
        self.graph
    }

    pub closed spec fn spec_version(&self) -> Seq<ID> {
        self.version@
    }

    pub closed spec fn spec_deletions(&self) -> Seq<RepairDeletion> {
        self.deletions@
    }

    pub closed spec fn spec_scope(&self) -> GraphScope {
        self.scope
    }

    pub fn graph(&self) -> (r: ID)
        ensures
            r == self.spec_graph(),
    {
        self.graph
    }

    pub fn version(&self) -> (r: &Vec<ID>)
        ensures
            r@ == self.spec_version(),
    {
        &self.version
    }

    pub fn policy(&self) -> (r: RepairPolicy)
        ensures
            r == RepairPolicy::AscendingNodeIdV1,
    {
        self.policy
    }

    pub fn scope(&self) -> (r: &GraphScope)
        ensures
            *r == self.spec_scope(),
    {
        &self.scope
    }

    pub fn deletions(&self) -> (r: &Vec<RepairDeletion>)
        ensures
            r@ == self.spec_deletions(),
    {
        &self.deletions
    }

    pub fn is_empty(&self) -> (r: bool)
        ensures
            r == (self.spec_deletions().len() == 0),
    {
        self.deletions.len() == 0
    }
}


/// The edges a scope selects, ascending by identity: every snapshot edge, or the
/// snapshot edges whose identity is selected.
pub open spec fn scoped_edges_ok(snapshot: Seq<GraphSnapshotEdge>, scope: GraphScope, r: Seq<GraphSnapshotEdge>) -> bool {
    match scope {
        GraphScope::AllVisible => r == snapshot,
        GraphScope::Selected(ids) => {
            &&& sorted_ids(snapshot_edge_ids(r))
            &&& forall|e: GraphSnapshotEdge| #[trigger] r.contains(e) <==> (snapshot.contains(e) && edge_id_seq(ids@).contains(e.id.spec_id()))
        },
    }
}

pub open spec fn edge_id_seq(s: Seq<GraphEdgeId>) -> Seq<ID> {
    s.map_values(|x: GraphEdgeId| x.spec_id())
}

/// A selection names only snapshot edges.
pub open spec fn selection_known(snapshot: Seq<GraphSnapshotEdge>, scope: GraphScope) -> bool {
    match scope {
        GraphScope::AllVisible => true,
        GraphScope::Selected(ids) => forall|k: int| 0 <= k < ids@.len() ==> snapshot_edge_ids(snapshot).contains((#[trigger] ids@[k]).spec_id()),
    }
}

/// The error for a selection naming an edge outside the snapshot: the smallest such edge.
pub open spec fn first_unknown(snapshot: Seq<GraphSnapshotEdge>, scope: GraphScope, x: GraphEdgeId) -> bool {
    match scope {
        GraphScope::AllVisible => false,
        GraphScope::Selected(ids) => {
            &&& edge_id_seq(ids@).contains(x.spec_id())
            &&& !snapshot_edge_ids(snapshot).contains(x.spec_id())
            &&& forall|y: ID| #[trigger] edge_id_seq(ids@).contains(y) && id_lt(y, x.spec_id()) ==> snapshot_edge_ids(snapshot).contains(y)
        },
    }
}

/// The canonical form of a scope: selections ascending without repeats.
pub open spec fn canonical_scope(scope: GraphScope, r: GraphScope) -> bool {
    match scope {
        GraphScope::AllVisible => r == GraphScope::AllVisible,
        GraphScope::Selected(ids) => r matches GraphScope::Selected(c) && sorted_ids(edge_id_seq(c@))
            && forall|x: ID| #[trigger] edge_id_seq(c@).contains(x) <==> edge_id_seq(ids@).contains(x),
    }
}

/// Position of a node in an ascending node list.
fn position_of(nodes: &Vec<GraphNodeId>, id: GraphNodeId) -> (r: Option<usize>)
    requires
        sorted_ids(snapshot_node_ids(nodes@)),
    ensures
        match r {
            Some(i) => i < nodes@.len() && nodes@[i as int] == id,
            None => !snapshot_node_ids(nodes@).contains(id.spec_id()),
        },
{
    let mut lo: usize = 0;
    let mut hi: usize = nodes.len();
    while lo < hi
        invariant
            sorted_ids(snapshot_node_ids(nodes@)),
            lo <= hi <= nodes@.len(),
            forall|j: int| 0 <= j < lo ==> id_lt(#[trigger] snapshot_node_ids(nodes@)[j], id.spec_id()),
            forall|j: int| hi <= j < nodes@.len() ==> id_lt(id.spec_id(), #[trigger] snapshot_node_ids(nodes@)[j]),
        decreases hi - lo,
    {
        let mid = lo + (hi - lo) / 2;
        let m = nodes[mid];
        assert(snapshot_node_ids(nodes@)[mid as int] == m.spec_id());
        if m == id {
            return Some(mid);
        } else if id_less(m.id(), id.id()) {
            proof {
                assert forall|j: int| 0 <= j < mid + 1 implies id_lt(#[trigger] snapshot_node_ids(nodes@)[j], id.spec_id()) by {
                    if j < mid {
                        assert(id_lt(snapshot_node_ids(nodes@)[j], snapshot_node_ids(nodes@)[mid as int]));
                    }
                }
            }
            lo = mid + 1;
        } else {
            proof {
                assert(id_lt(id.spec_id(), m.spec_id())) by {
                    assert(m.spec_id() != id.spec_id());
                }
                assert forall|j: int| mid <= j < nodes@.len() implies id_lt(id.spec_id(), #[trigger] snapshot_node_ids(nodes@)[j]) by {
                    if j > mid {
                        assert(id_lt(snapshot_node_ids(nodes@)[mid as int], snapshot_node_ids(nodes@)[j]));
                    }
                }
            }
            hi = mid;
        }
    }
    proof {
        if snapshot_node_ids(nodes@).contains(id.spec_id()) {
            let j = choose|j: int| 0 <= j < snapshot_node_ids(nodes@).len() && snapshot_node_ids(nodes@)[j] == id.spec_id();
            assert(id_lt(snapshot_node_ids(nodes@)[j], id.spec_id()) || id_lt(id.spec_id(), snapshot_node_ids(nodes@)[j]));
        }
    }
    None
}

/// Index of an edge in an ascending edge list.
fn edge_index_of(edges: &Vec<GraphSnapshotEdge>, id: ID) -> (r: Option<usize>)
    requires
        sorted_ids(snapshot_edge_ids(edges@)),
    ensures
        match r {
            Some(i) => i < edges@.len() && edges@[i as int].id.spec_id() == id,
            None => !snapshot_edge_ids(edges@).contains(id),
        },
{
    let mut lo: usize = 0;
    let mut hi: usize = edges.len();
    while lo < hi
        invariant
            sorted_ids(snapshot_edge_ids(edges@)),
            lo <= hi <= edges@.len(),
            forall|j: int| 0 <= j < lo ==> id_lt(#[trigger] snapshot_edge_ids(edges@)[j], id),
            forall|j: int| hi <= j < edges@.len() ==> id_lt(id, #[trigger] snapshot_edge_ids(edges@)[j]),
        decreases hi - lo,
    {
        let mid = lo + (hi - lo) / 2;
        let m = edges[mid].id.id();
        assert(snapshot_edge_ids(edges@)[mid as int] == m);
        if m == id {
            return Some(mid);
        } else if id_less(m, id) {
            proof {
                assert forall|j: int| 0 <= j < mid + 1 implies id_lt(#[trigger] snapshot_edge_ids(edges@)[j], id) by {
                    if j < mid {
                        assert(id_lt(snapshot_edge_ids(edges@)[j], snapshot_edge_ids(edges@)[mid as int]));
                    }
                }
            }
            lo = mid + 1;
        } else {
            proof {
                assert forall|j: int| mid <= j < edges@.len() implies id_lt(id, #[trigger] snapshot_edge_ids(edges@)[j]) by {
                    if j > mid {
                        assert(id_lt(snapshot_edge_ids(edges@)[mid as int], snapshot_edge_ids(edges@)[j]));
                    }
                }
            }
            hi = mid;
        }
    }
    proof {
        if snapshot_edge_ids(edges@).contains(id) {
            let j = choose|j: int| 0 <= j < snapshot_edge_ids(edges@).len() && snapshot_edge_ids(edges@)[j] == id;
            assert(id_lt(snapshot_edge_ids(edges@)[j], id) || id_lt(id, snapshot_edge_ids(edges@)[j]));
        }
    }
    None
}


/// Copy a list of snapshot edges.
fn copy_edges(v: &Vec<GraphSnapshotEdge>) -> (r: Vec<GraphSnapshotEdge>)
    ensures
        r@ == v@,
{
    let mut r: Vec<GraphSnapshotEdge> = Vec::new();
    let mut i: usize = 0;
    while i < v.len()
        invariant
            i <= v@.len(),
            r@ == v@.take(i as int),
        decreases v@.len() - i,
    {
        r.push(v[i]);
        i += 1;
        proof { assert(r@ =~= v@.take(i as int)); }
    }
    proof { assert(v@.take(i as int) =~= v@); }
    r
}

/// The identities of a selection, ascending and without repeats.
fn canonical_ids(ids: &Vec<GraphEdgeId>) -> (r: Vec<ID>)
    ensures
        sorted_ids(r@),
        forall|x: ID| #[trigger] r@.contains(x) <==> edge_id_seq(ids@).contains(x),
{
    let mut set: IdMap<()> = IdMap::new();
    let mut i: usize = 0;
    while i < ids.len()
        invariant
            set.wf(),
            i <= ids@.len(),
            forall|x: ID| #[trigger] set@.contains_key(x) <==> edge_id_seq(ids@.take(i as int)).contains(x),
        decreases ids@.len() - i,
    {
        set.insert(ids[i].id(), ());
        proof {
            assert forall|x: ID| #[trigger] set@.contains_key(x) <==> edge_id_seq(ids@.take(i + 1)).contains(x) by {
                let a = edge_id_seq(ids@.take(i as int));
                let b = edge_id_seq(ids@.take(i + 1));
                assert(b =~= a.push(ids@[i as int].spec_id()));
                if a.contains(x) {
                    let k = choose|k: int| 0 <= k < a.len() && a[k] == x;
                    assert(b[k] == x);
                }
                if b.contains(x) && x != ids@[i as int].spec_id() {
                    let k = choose|k: int| 0 <= k < b.len() && b[k] == x;
                    assert(k < i);
                    assert(a[k] == x);
                }
                if x == ids@[i as int].spec_id() {
                    assert(b[i as int] == x);
                }
            }
        }
        i += 1;
    }
    proof {
        assert(ids@.take(i as int) =~= ids@);
        set.lemma_view();
    }
    let r = set.keys_vec();
    proof {
        assert forall|x: ID| #[trigger] r@.contains(x) <==> edge_id_seq(ids@).contains(x) by {
            assert(set@.dom().contains(x) == set.keys().to_set().contains(x));
        }
    }
    r
}

/// The scoped edges, ascending by identity, and the canonical scope.
fn select_edges(snapshot: &GraphSnapshot, scope: &GraphScope) -> (r: Result<(Vec<GraphSnapshotEdge>, GraphScope), GraphRepairError>)
    requires
        snapshot.wf(),
    ensures
        match r {
            Ok((edges, canon)) => selection_known(snapshot.spec_edges(), *scope) && scoped_edges_ok(snapshot.spec_edges(), *scope, edges@)
                && canonical_scope(*scope, canon),
            Err(e) => e matches GraphRepairError::InvalidSelection(x) && first_unknown(snapshot.spec_edges(), *scope, x),
        },
{
    match scope {
        GraphScope::AllVisible => Ok((copy_edges(&snapshot.edges), GraphScope::AllVisible)),
        GraphScope::Selected(ids) => {
            let keys = canonical_ids(ids);
            let mut out: Vec<GraphSnapshotEdge> = Vec::new();
            let mut canon: Vec<GraphEdgeId> = Vec::new();
            let mut k: usize = 0;
            while k < keys.len()
                invariant
                    snapshot.wf(),
                    *scope == GraphScope::Selected(*ids),
                    sorted_ids(keys@),
                    forall|x: ID| #[trigger] keys@.contains(x) <==> edge_id_seq(ids@).contains(x),
                    k <= keys@.len(),
                    snapshot_edge_ids(out@) == keys@.take(k as int),
                    edge_id_seq(canon@) == keys@.take(k as int),
                    out@.len() == k,
                    canon@.len() == k,
                    forall|j: int| 0 <= j < out@.len() ==> snapshot.edges@.contains(#[trigger] out@[j]),
                decreases keys@.len() - k,
            {
                let key = keys[k];
                match edge_index_of(&snapshot.edges, key) {
                    Some(i) => {
                        let ghost prev = out@;
                        let ghost prevc = canon@;
                        out.push(snapshot.edges[i]);
                        let cid = GraphEdgeId::from_id(key);
                        canon.push(cid);
                        proof {
                            assert(out@ =~= prev.push(snapshot.edges@[i as int]));
                            assert(canon@ =~= prevc.push(cid));
                            assert(keys@.take(k + 1) =~= keys@.take(k as int).push(key));
                            assert(snapshot_edge_ids(out@) =~= snapshot_edge_ids(prev).push(key));
                            assert(edge_id_seq(canon@) =~= edge_id_seq(prevc).push(key));
                            assert(snapshot_edge_ids(out@) =~= keys@.take(k + 1));
                            assert(edge_id_seq(canon@) =~= keys@.take(k + 1));
                            assert forall|j: int| 0 <= j < out@.len() implies snapshot.edges@.contains(#[trigger] out@[j]) by {
                                if j < prev.len() {
                                    assert(out@[j] == prev[j]);
                                } else {
                                    assert(snapshot.edges@[i as int] == out@[j]);
                                }
                            }
                        }
                    },
                    None => {
                        let err = GraphEdgeId::from_id(key);
                        proof {
                            assert(keys@.contains(key)) by { assert(keys@[k as int] == key); }
                            assert forall|y: ID| #[trigger] edge_id_seq(ids@).contains(y) && id_lt(y, key)
                                implies snapshot_edge_ids(snapshot.edges@).contains(y) by {
                                assert(keys@.contains(y));
                                let m = choose|m: int| 0 <= m < keys@.len() && keys@[m] == y;
                                if m >= k {
                                    if m > k {
                                        assert(id_lt(keys@[k as int], keys@[m]));
                                    }
                                }
                                assert(m < k);
                                assert(keys@.take(k as int)[m] == y);
                                assert(snapshot_edge_ids(out@)[m] == y);
                                assert(snapshot.edges@.contains(out@[m]));
                                let q = choose|q: int| 0 <= q < snapshot.edges@.len() && snapshot.edges@[q] == out@[m];
                                assert(snapshot_edge_ids(snapshot.edges@)[q] == y);
                            }
                        }
                        proof {
                            assert(edge_id_seq(ids@).contains(err.spec_id()));
                            assert(!snapshot_edge_ids(snapshot.spec_edges()).contains(err.spec_id()));
                            assert(forall|y: ID| #[trigger] edge_id_seq(ids@).contains(y) && id_lt(y, err.spec_id()) ==> snapshot_edge_ids(snapshot.spec_edges()).contains(y));
                            assert(first_unknown(snapshot.spec_edges(), *scope, err));
                        }
                        return Err(GraphRepairError::InvalidSelection(err));
                    },
                }
                k += 1;
            }
            proof {
                assert(keys@.take(k as int) =~= keys@);
                assert forall|j: int| 0 <= j < ids@.len() implies snapshot_edge_ids(snapshot.edges@).contains((#[trigger] ids@[j]).spec_id()) by {
                    assert(edge_id_seq(ids@)[j] == ids@[j].spec_id());
                    assert(keys@.contains(ids@[j].spec_id()));
                    let m = choose|m: int| 0 <= m < keys@.len() && keys@[m] == ids@[j].spec_id();
                    assert(snapshot_edge_ids(out@)[m] == ids@[j].spec_id());
                    assert(snapshot.edges@.contains(out@[m]));
                    let q = choose|q: int| 0 <= q < snapshot.edges@.len() && snapshot.edges@[q] == out@[m];
                    assert(snapshot_edge_ids(snapshot.edges@)[q] == ids@[j].spec_id());
                }
                assert forall|e: GraphSnapshotEdge| #[trigger] out@.contains(e) <==> (snapshot.edges@.contains(e) && edge_id_seq(ids@).contains(e.id.spec_id())) by {
                    if out@.contains(e) {
                        let j = choose|j: int| 0 <= j < out@.len() && out@[j] == e;
                        assert(snapshot_edge_ids(out@)[j] == e.id.spec_id());
                        assert(keys@.contains(e.id.spec_id()));
                    }
                    if snapshot.edges@.contains(e) && edge_id_seq(ids@).contains(e.id.spec_id()) {
                        assert(keys@.contains(e.id.spec_id()));
                        let m = choose|m: int| 0 <= m < keys@.len() && keys@[m] == e.id.spec_id();
                        assert(snapshot_edge_ids(out@)[m] == e.id.spec_id());
                        assert(snapshot.edges@.contains(out@[m]));
                        let q1 = choose|q: int| 0 <= q < snapshot.edges@.len() && snapshot.edges@[q] == out@[m];
                        let q2 = choose|q: int| 0 <= q < snapshot.edges@.len() && snapshot.edges@[q] == e;
                        if q1 != q2 {
                            if q1 < q2 {
                                assert(id_lt(snapshot_edge_ids(snapshot.edges@)[q1], snapshot_edge_ids(snapshot.edges@)[q2]));
                            } else {
                                assert(id_lt(snapshot_edge_ids(snapshot.edges@)[q2], snapshot_edge_ids(snapshot.edges@)[q1]));
                            }
                        }
                        assert(out@[m] == e);
                    }
                }
                assert forall|x: ID| #[trigger] edge_id_seq(canon@).contains(x) <==> edge_id_seq(ids@).contains(x) by {
                    assert(edge_id_seq(canon@) == keys@);
                }
            }
            Ok((out, GraphScope::Selected(canon)))
        },
    }
}


/// The scoped edges indexed by node position: `ends[i]` holds the positions of the
/// source and target of `edges[i]`, and each node lists its outgoing and incoming
/// `(other end, edge)` pairs in edge order.
struct IndexedGraph {
    edges: Vec<GraphSnapshotEdge>,
    ends: Vec<(usize, usize)>,
    scope: GraphScope,
    outgoing: Vec<Vec<(usize, GraphEdgeId)>>,
    incoming: Vec<Vec<(usize, GraphEdgeId)>>,
    /// For each adjacency entry, the index of the scoped edge it lists.
    out_owner: Ghost<Seq<Seq<int>>>,
    in_owner: Ghost<Seq<Seq<int>>>,
}

impl IndexedGraph {
    spec fn wf(&self, nodes: Seq<GraphNodeId>) -> bool {
        let n = nodes.len();
        &&& self.ends@.len() == self.edges@.len()
        &&& self.outgoing@.len() == n
        &&& self.incoming@.len() == n
        &&& forall|i: int| #![trigger self.ends@[i]] 0 <= i < self.ends@.len() ==> {
            &&& self.ends@[i].0 < n
            &&& self.ends@[i].1 < n
            &&& nodes[self.ends@[i].0 as int] == self.edges@[i].source
            &&& nodes[self.ends@[i].1 as int] == self.edges@[i].target
            &&& self.outgoing@[self.ends@[i].0 as int]@.contains((self.ends@[i].1, self.edges@[i].id))
            &&& self.incoming@[self.ends@[i].1 as int]@.contains((self.ends@[i].0, self.edges@[i].id))
        }
        &&& self.out_owner@.len() == n
        &&& self.in_owner@.len() == n
        &&& forall|v: int| 0 <= v < n ==> (#[trigger] self.out_owner@[v]).len() == self.outgoing@[v]@.len()
        &&& forall|v: int| 0 <= v < n ==> (#[trigger] self.in_owner@[v]).len() == self.incoming@[v]@.len()
        &&& forall|v: int, k: int| 0 <= v < n && 0 <= k < self.outgoing@[v]@.len() ==> {
            let i = #[trigger] self.out_owner@[v][k];
            0 <= i < self.ends@.len() && self.ends@[i] == (v as usize, self.outgoing@[v]@[k].0) && self.edges@[i].id == self.outgoing@[v]@[k].1
        }
        &&& forall|v: int, k: int| 0 <= v < n && 0 <= k < self.incoming@[v]@.len() ==> {
            let i = #[trigger] self.in_owner@[v][k];
            0 <= i < self.ends@.len() && self.ends@[i] == (self.incoming@[v]@[k].0, v as usize) && self.edges@[i].id == self.incoming@[v]@[k].1
        }
    }

    /// Index the scoped edges of a snapshot; an endpoint outside the snapshot is an invalid plan.
    fn new(snapshot: &GraphSnapshot, scope: &GraphScope) -> (r: Result<IndexedGraph, GraphRepairError>)
        requires
            snapshot.wf(),
        ensures
            match r {
                Ok(g) => g.wf(snapshot.spec_nodes()) && selection_known(snapshot.spec_edges(), *scope)
                    && scoped_edges_ok(snapshot.spec_edges(), *scope, g.edges@) && canonical_scope(*scope, g.scope),
                Err(GraphRepairError::InvalidSelection(x)) => first_unknown(snapshot.spec_edges(), *scope, x),
                Err(GraphRepairError::InvalidPlan) => exists|edges: Seq<GraphSnapshotEdge>| selection_known(snapshot.spec_edges(), *scope)
                    && #[trigger] scoped_edges_ok(snapshot.spec_edges(), *scope, edges)
                    && exists|i: int| 0 <= i < edges.len() && (!snapshot_node_ids(snapshot.spec_nodes()).contains((#[trigger] edges[i]).source.spec_id())
                        || !snapshot_node_ids(snapshot.spec_nodes()).contains(edges[i].target.spec_id())),
                Err(_) => false,
            },
    {
        let (edges, canon) = match select_edges(snapshot, scope) {
            Ok(x) => x,
            Err(e) => {
                return Err(e);
            },
        };
        let n = snapshot.nodes.len();
        let mut outgoing: Vec<Vec<(usize, GraphEdgeId)>> = Vec::new();
        let mut incoming: Vec<Vec<(usize, GraphEdgeId)>> = Vec::new();
        let mut v: usize = 0;
        while v < n
            invariant
                v <= n,
                n == snapshot.nodes@.len(),
                outgoing@.len() == v,
                incoming@.len() == v,
                forall|w: int| 0 <= w < v ==> (#[trigger] outgoing@[w])@.len() == 0,
                forall|w: int| 0 <= w < v ==> (#[trigger] incoming@[w])@.len() == 0,
            decreases n - v,
        {
            outgoing.push(Vec::new());
            incoming.push(Vec::new());
            v += 1;
        }
        let mut ends: Vec<(usize, usize)> = Vec::new();
        let mut i: usize = 0;
        let ghost mut out_owner: Seq<Seq<int>> = Seq::new(n as nat, |w: int| Seq::<int>::empty());
        let ghost mut in_owner: Seq<Seq<int>> = Seq::new(n as nat, |w: int| Seq::<int>::empty());
        while i < edges.len()
            invariant
                snapshot.wf(),
                selection_known(snapshot.spec_edges(), *scope),
                scoped_edges_ok(snapshot.spec_edges(), *scope, edges@),
                canonical_scope(*scope, canon),
                n == snapshot.nodes@.len(),
                i <= edges@.len(),
                ends@.len() == i,
                outgoing@.len() == n,
                incoming@.len() == n,
                forall|j: int| #![trigger ends@[j]] 0 <= j < i ==> {
                    &&& ends@[j].0 < n
                    &&& ends@[j].1 < n
                    &&& snapshot.nodes@[ends@[j].0 as int] == edges@[j].source
                    &&& snapshot.nodes@[ends@[j].1 as int] == edges@[j].target
                    &&& outgoing@[ends@[j].0 as int]@.contains((ends@[j].1, edges@[j].id))
                    &&& incoming@[ends@[j].1 as int]@.contains((ends@[j].0, edges@[j].id))
                },
                out_owner.len() == n,
                in_owner.len() == n,
                forall|w: int| 0 <= w < n ==> (#[trigger] out_owner[w]).len() == outgoing@[w]@.len(),
                forall|w: int| 0 <= w < n ==> (#[trigger] in_owner[w]).len() == incoming@[w]@.len(),
                forall|w: int, k: int| 0 <= w < n && 0 <= k < outgoing@[w]@.len() ==> {
                    let j = #[trigger] out_owner[w][k];
                    0 <= j < i && ends@[j] == (w as usize, outgoing@[w]@[k].0) && edges@[j].id == outgoing@[w]@[k].1
                },
                forall|w: int, k: int| 0 <= w < n && 0 <= k < incoming@[w]@.len() ==> {
                    let j = #[trigger] in_owner[w][k];
                    0 <= j < i && ends@[j] == (incoming@[w]@[k].0, w as usize) && edges@[j].id == incoming@[w]@[k].1
                },
                forall|j: int| 0 <= j < i ==> snapshot_node_ids(snapshot.nodes@).contains((#[trigger] edges@[j]).source.spec_id())
                    && snapshot_node_ids(snapshot.nodes@).contains(edges@[j].target.spec_id()),
            decreases edges@.len() - i,
        {
            let e = edges[i];
            let src = match position_of(&snapshot.nodes, e.source) {
                Some(p) => p,
                None => {
                    proof {
                        assert(edges@[i as int] == e);
                        assert(exists|k: int| 0 <= k < edges@.len() && (!snapshot_node_ids(snapshot.spec_nodes()).contains((#[trigger] edges@[k]).source.spec_id())
                            || !snapshot_node_ids(snapshot.spec_nodes()).contains(edges@[k].target.spec_id())));
                    }
                    return Err(GraphRepairError::InvalidPlan);
                },
            };
            let tgt = match position_of(&snapshot.nodes, e.target) {
                Some(p) => p,
                None => {
                    proof {
                        assert(edges@[i as int] == e);
                        assert(exists|k: int| 0 <= k < edges@.len() && (!snapshot_node_ids(snapshot.spec_nodes()).contains((#[trigger] edges@[k]).source.spec_id())
                            || !snapshot_node_ids(snapshot.spec_nodes()).contains(edges@[k].target.spec_id())));
                    }
                    return Err(GraphRepairError::InvalidPlan);
                },
            };
            let ghost out0 = outgoing@;
            let ghost in0 = incoming@;
            let ghost ends0 = ends@;
            outgoing[src].push((tgt, e.id));
            incoming[tgt].push((src, e.id));
            ends.push((src, tgt));
            proof {
                assert(ends@ == ends0.push((src, tgt)));
                assert(outgoing@.len() == out0.len());
                assert(outgoing@[src as int]@ == out0[src as int]@.push((tgt, e.id)));
                assert(forall|w: int| 0 <= w < n && w != src ==> #[trigger] outgoing@[w] == out0[w]);
                assert(incoming@[tgt as int]@ == in0[tgt as int]@.push((src, e.id)));
                assert(forall|w: int| 0 <= w < n && w != tgt ==> #[trigger] incoming@[w] == in0[w]);
                assert(snapshot_node_ids(snapshot.nodes@)[src as int] == e.source.spec_id());
                assert(snapshot_node_ids(snapshot.nodes@)[tgt as int] == e.target.spec_id());
                assert forall|j: int| #![trigger ends@[j]] 0 <= j < i + 1 implies {
                    &&& ends@[j].0 < n
                    &&& ends@[j].1 < n
                    &&& snapshot.nodes@[ends@[j].0 as int] == edges@[j].source
                    &&& snapshot.nodes@[ends@[j].1 as int] == edges@[j].target
                    &&& outgoing@[ends@[j].0 as int]@.contains((ends@[j].1, edges@[j].id))
                    &&& incoming@[ends@[j].1 as int]@.contains((ends@[j].0, edges@[j].id))
                } by {
                    if j < i {
                        assert(ends@[j] == ends0[j]);
                        let a = ends0[j].0 as int;
                        let b = ends0[j].1 as int;
                        assert(out0[a]@.contains((ends0[j].1, edges@[j].id)));
                        let k = choose|k: int| 0 <= k < out0[a]@.len() && out0[a]@[k] == (ends0[j].1, edges@[j].id);
                        assert(outgoing@[a]@[k] == out0[a]@[k]);
                        assert(in0[b]@.contains((ends0[j].0, edges@[j].id)));
                        let k2 = choose|k2: int| 0 <= k2 < in0[b]@.len() && in0[b]@[k2] == (ends0[j].0, edges@[j].id);
                        assert(incoming@[b]@[k2] == in0[b]@[k2]);
                    } else {
                        assert(outgoing@[src as int]@[out0[src as int]@.len() as int] == (tgt, e.id));
                        assert(incoming@[tgt as int]@[in0[tgt as int]@.len() as int] == (src, e.id));
                    }
                }
                out_owner = out_owner.update(src as int, out_owner[src as int].push(i as int));
                in_owner = in_owner.update(tgt as int, in_owner[tgt as int].push(i as int));
                assert forall|w: int, k: int| 0 <= w < n && 0 <= k < outgoing@[w]@.len() implies {
                    let j = #[trigger] out_owner[w][k];
                    0 <= j < i + 1 && ends@[j] == (w as usize, outgoing@[w]@[k].0) && edges@[j].id == outgoing@[w]@[k].1
                } by {
                    if !(w == src && k == out0[w]@.len()) {
                        assert(outgoing@[w]@[k] == out0[w]@[k]);
                    }
                }
                assert forall|w: int, k: int| 0 <= w < n && 0 <= k < incoming@[w]@.len() implies {
                    let j = #[trigger] in_owner[w][k];
                    0 <= j < i + 1 && ends@[j] == (incoming@[w]@[k].0, w as usize) && edges@[j].id == incoming@[w]@[k].1
                } by {
                    if !(w == tgt && k == in0[w]@.len()) {
                        assert(incoming@[w]@[k] == in0[w]@[k]);
                    }
                }
            }
            i += 1;
        }
        let g = IndexedGraph { edges, ends, scope: canon, outgoing, incoming, out_owner: Ghost(out_owner), in_owner: Ghost(in_owner) };
        proof {
            assert forall|i: int| #![trigger g.ends@[i]] 0 <= i < g.ends@.len() implies {
                &&& g.ends@[i].0 < snapshot.spec_nodes().len()
                &&& g.ends@[i].1 < snapshot.spec_nodes().len()
                &&& snapshot.spec_nodes()[g.ends@[i].0 as int] == g.edges@[i].source
                &&& snapshot.spec_nodes()[g.ends@[i].1 as int] == g.edges@[i].target
                &&& g.outgoing@[g.ends@[i].0 as int]@.contains((g.ends@[i].1, g.edges@[i].id))
                &&& g.incoming@[g.ends@[i].1 as int]@.contains((g.ends@[i].0, g.edges@[i].id))
            } by {
                assert(ends@[i] == g.ends@[i]);
            }
        }
        Ok(g)
    }
}


/// Number of unvisited nodes.
pub open spec fn unvisited(s: Seq<bool>) -> nat
    decreases s.len(),
{
    if s.len() == 0 {
        0
    } else {
        unvisited(s.drop_last()) + if s.last() { 0nat } else { 1nat }
    }
}

pub proof fn lemma_unvisited_mark(s: Seq<bool>, i: int)
    requires
        0 <= i < s.len(),
        !s[i],
    ensures
        unvisited(s.update(i, true)) + 1 == unvisited(s),
    decreases s.len(),
{
    let t = s.update(i, true);
    if i == s.len() - 1 {
        assert(t.drop_last() =~= s.drop_last());
    } else {
        assert(t.drop_last() =~= s.drop_last().update(i, true));
        lemma_unvisited_mark(s.drop_last(), i);
    }
}

impl IndexedGraph {
    proof fn lemma_incoming_bound(&self, nodes: Seq<GraphNodeId>)
        requires
            self.wf(nodes),
        ensures
            forall|w: int, k: int| 0 <= w < nodes.len() && 0 <= k < self.incoming@[w]@.len() ==>
                (#[trigger] self.incoming@[w]@[k]).0 < nodes.len(),
    {
        assert forall|w: int, k: int| 0 <= w < nodes.len() && 0 <= k < self.incoming@[w]@.len() implies
            (#[trigger] self.incoming@[w]@[k]).0 < nodes.len() by {
            let i = self.in_owner@[w][k];
            assert(self.ends@[i].0 < nodes.len());
        }
    }

    proof fn lemma_outgoing_bound(&self, nodes: Seq<GraphNodeId>)
        requires
            self.wf(nodes),
        ensures
            forall|w: int, k: int| 0 <= w < nodes.len() && 0 <= k < self.outgoing@[w]@.len() ==>
                (#[trigger] self.outgoing@[w]@[k]).0 < nodes.len(),
    {
        assert forall|w: int, k: int| 0 <= w < nodes.len() && 0 <= k < self.outgoing@[w]@.len() implies
            (#[trigger] self.outgoing@[w]@[k]).0 < nodes.len() by {
            let i = self.out_owner@[w][k];
            assert(self.ends@[i].1 < nodes.len());
        }
    }

}

/// `comps` lists the components of `n` nodes: nonempty, ascending inside, ordered by
/// their smallest node, with `membership` naming each node's component; nodes share
/// a component exactly when they share a rank, no edge goes to a lower rank, and
/// nodes of one component reach each other.
pub open spec fn components_ok(
    n: nat,
    ends: Seq<(usize, usize)>,
    comps: Seq<Seq<usize>>,
    membership: Seq<usize>,
    rank: Seq<int>,
) -> bool {
    &&& membership.len() == n
    &&& rank.len() == n
    &&& forall|c: int| 0 <= c < comps.len() ==> (#[trigger] comps[c]).len() > 0
    &&& forall|c: int, a: int, b: int| 0 <= c < comps.len() && 0 <= a < b < comps[c].len() ==> (#[trigger] comps[c][a]) < (#[trigger] comps[c][b])
    &&& forall|c: int, d: int| 0 <= c < d < comps.len() ==> (#[trigger] comps[c])[0] < (#[trigger] comps[d])[0]
    &&& forall|v: int| 0 <= v < n ==> (#[trigger] membership[v]) < comps.len()
    &&& forall|c: int, x: usize| 0 <= c < comps.len() ==> (#[trigger] comps[c].contains(x) <==> (x < n && membership[x as int] == c))
    &&& forall|u: int, v: int| 0 <= u < n && 0 <= v < n ==> ((#[trigger] membership[u] == #[trigger] membership[v]) <==> rank[u] == rank[v])
    &&& forall|i: int| #![trigger ends[i]] 0 <= i < ends.len() ==> rank[ends[i].0 as int] <= rank[ends[i].1 as int]
    &&& forall|u: int, v: int| 0 <= u < n && 0 <= v < n && #[trigger] membership[u] == #[trigger] membership[v] ==> reaches(ends, u, v)
}

pub open spec fn comps_view(c: Seq<Vec<usize>>) -> Seq<Seq<usize>> {
    c.map_values(|v: Vec<usize>| v@)
}

/// `path` (scoped edge indices) walks from node `a` to node `b`.
pub open spec fn index_walk(ends: Seq<(usize, usize)>, path: Seq<int>, a: int, b: int) -> bool {
    &&& path.len() > 0
    &&& forall|k: int| 0 <= k < path.len() ==> 0 <= #[trigger] path[k] < ends.len()
    &&& ends[path[0]].0 == a
    &&& ends[path[path.len() - 1]].1 == b
    &&& forall|k: int| 0 <= k < path.len() - 1 ==> ends[#[trigger] path[k]].1 == ends[path[k + 1]].0
}

/// Node `a` reaches node `b` along scoped edges; every node reaches itself.
pub open spec fn reaches(ends: Seq<(usize, usize)>, a: int, b: int) -> bool {
    a == b || exists|path: Seq<int>| #[trigger] index_walk(ends, path, a, b)
}

/// Nodes `a` and `b` reach each other.
pub open spec fn mutual(ends: Seq<(usize, usize)>, a: int, b: int) -> bool {
    reaches(ends, a, b) && reaches(ends, b, a)
}

/// `u` is reached from `v` (`rev` false) or reaches `v` (`rev` true).
pub open spec fn reached_dir(ends: Seq<(usize, usize)>, rev: bool, v: int, u: int) -> bool {
    if rev { reaches(ends, u, v) } else { reaches(ends, v, u) }
}

/// How many of the nodes below `m` reach `u`.
pub open spec fn reach_count(ends: Seq<(usize, usize)>, u: int, m: nat) -> nat
    decreases m,
{
    if m == 0 {
        0
    } else {
        reach_count(ends, u, (m - 1) as nat) + if reaches(ends, m - 1, u) { 1nat } else { 0nat }
    }
}

/// A reach followed by an edge is a reach.
proof fn lemma_reach_append(ends: Seq<(usize, usize)>, a: int, b: int, i: int)
    requires
        reaches(ends, a, b),
        0 <= i < ends.len(),
        ends[i].0 == b,
    ensures
        reaches(ends, a, ends[i].1 as int),
{
    if a == b {
        assert(index_walk(ends, seq![i], a, ends[i].1 as int));
    } else {
        let p = choose|p: Seq<int>| #[trigger] index_walk(ends, p, a, b);
        let q = p.push(i);
        assert forall|k: int| 0 <= k < q.len() - 1 implies ends[#[trigger] q[k]].1 == ends[q[k + 1]].0 by {
            if k < p.len() - 1 {
                assert(q[k] == p[k] && q[k + 1] == p[k + 1]);
            } else {
                assert(q[k] == p[p.len() - 1]);
            }
        }
        assert(index_walk(ends, q, a, ends[i].1 as int));
    }
}

/// An edge followed by a reach is a reach.
proof fn lemma_reach_prepend(ends: Seq<(usize, usize)>, i: int, a: int, b: int)
    requires
        reaches(ends, a, b),
        0 <= i < ends.len(),
        ends[i].1 == a,
    ensures
        reaches(ends, ends[i].0 as int, b),
{
    if a == b {
        assert(index_walk(ends, seq![i], ends[i].0 as int, b));
    } else {
        let p = choose|p: Seq<int>| #[trigger] index_walk(ends, p, a, b);
        let q = seq![i] + p;
        assert forall|k: int| 0 <= k < q.len() implies 0 <= #[trigger] q[k] < ends.len() by {
            if k > 0 { assert(q[k] == p[k - 1]); }
        }
        assert forall|k: int| 0 <= k < q.len() - 1 implies ends[#[trigger] q[k]].1 == ends[q[k + 1]].0 by {
            if k > 0 {
                assert(q[k] == p[k - 1] && q[k + 1] == p[k]);
            } else {
                assert(q[1] == p[0]);
            }
        }
        assert(q[q.len() - 1] == p[p.len() - 1]);
        assert(index_walk(ends, q, ends[i].0 as int, b));
    }
}

/// Reaching is transitive.
proof fn lemma_reach_trans(ends: Seq<(usize, usize)>, a: int, b: int, c: int)
    requires
        reaches(ends, a, b),
        reaches(ends, b, c),
    ensures
        reaches(ends, a, c),
{
    if a == b || b == c {
    } else {
        let p1 = choose|p: Seq<int>| #[trigger] index_walk(ends, p, a, b);
        let p2 = choose|p: Seq<int>| #[trigger] index_walk(ends, p, b, c);
        let q = p1 + p2;
        assert forall|k: int| 0 <= k < q.len() implies 0 <= #[trigger] q[k] < ends.len() by {
            if k >= p1.len() { assert(q[k] == p2[k - p1.len()]); } else { assert(q[k] == p1[k]); }
        }
        assert forall|k: int| 0 <= k < q.len() - 1 implies ends[#[trigger] q[k]].1 == ends[q[k + 1]].0 by {
            if k < p1.len() - 1 {
                assert(q[k] == p1[k] && q[k + 1] == p1[k + 1]);
            } else if k == p1.len() - 1 {
                assert(q[k] == p1[k] && q[k + 1] == p2[0]);
            } else {
                assert(q[k] == p2[k - p1.len()] && q[k + 1] == p2[k + 1 - p1.len()]);
            }
        }
        assert(q[0] == p1[0]);
        assert(q[q.len() - 1] == p2[p2.len() - 1]);
        assert(index_walk(ends, q, a, c));
    }
}

/// Along a walk from a reached node, every edge end is reached when reached nodes
/// are closed under edges.
proof fn lemma_closed_walk(ends: Seq<(usize, usize)>, reached: Seq<bool>, path: Seq<int>, a: int, b: int, k: int)
    requires
        index_walk(ends, path, a, b),
        0 <= k < path.len(),
        0 <= a < reached.len(),
        reached[a],
        forall|i: int| 0 <= i < ends.len() ==> ends[i].0 < reached.len() && ends[i].1 < reached.len(),
        forall|i: int| 0 <= i < ends.len() && reached[ends[i].0 as int] ==> #[trigger] reached[ends[i].1 as int],
    ensures
        reached[ends[path[k]].1 as int],
    decreases k,
{
    if k > 0 {
        lemma_closed_walk(ends, reached, path, a, b, k - 1);
        assert(ends[path[k - 1]].1 == ends[path[k]].0);
    }
    assert(reached[ends[path[k]].0 as int]);
}

/// Along a walk to a reached node, every edge start is reached when reached nodes
/// are closed under edges taken backwards.
proof fn lemma_closed_walk_back(ends: Seq<(usize, usize)>, reached: Seq<bool>, path: Seq<int>, a: int, b: int, k: int)
    requires
        index_walk(ends, path, a, b),
        0 <= k < path.len(),
        0 <= b < reached.len(),
        reached[b],
        forall|i: int| 0 <= i < ends.len() ==> ends[i].0 < reached.len() && ends[i].1 < reached.len(),
        forall|i: int| 0 <= i < ends.len() && reached[ends[i].1 as int] ==> #[trigger] reached[ends[i].0 as int],
    ensures
        reached[ends[path[k]].0 as int],
    decreases path.len() - k,
{
    if k < path.len() - 1 {
        lemma_closed_walk_back(ends, reached, path, a, b, k + 1);
        assert(ends[path[k]].1 == ends[path[k + 1]].0);
    }
    assert(reached[ends[path[k]].1 as int]);
}

/// A node reaches at most as many... counts of reachers grow along inclusion.
proof fn lemma_count_mono(ends: Seq<(usize, usize)>, a: int, b: int, m: nat)
    requires
        forall|w: int| 0 <= w < m && reaches(ends, w, a) ==> reaches(ends, w, b),
    ensures
        reach_count(ends, a, m) <= reach_count(ends, b, m),
    decreases m,
{
    if m > 0 {
        lemma_count_mono(ends, a, b, (m - 1) as nat);
    }
}

/// A strictly larger set of reachers has a strictly larger count.
proof fn lemma_count_strict(ends: Seq<(usize, usize)>, a: int, b: int, m: nat, w0: int)
    requires
        forall|w: int| 0 <= w < m && reaches(ends, w, a) ==> reaches(ends, w, b),
        0 <= w0 < m,
        reaches(ends, w0, b),
        !reaches(ends, w0, a),
    ensures
        reach_count(ends, a, m) < reach_count(ends, b, m),
    decreases m,
{
    if w0 == m - 1 {
        lemma_count_mono(ends, a, b, (m - 1) as nat);
    } else {
        lemma_count_strict(ends, a, b, (m - 1) as nat, w0);
    }
}

/// Equal sets of reachers have equal counts.
proof fn lemma_count_eq(ends: Seq<(usize, usize)>, a: int, b: int, m: nat)
    requires
        forall|w: int| 0 <= w < m ==> (reaches(ends, w, a) <==> reaches(ends, w, b)),
    ensures
        reach_count(ends, a, m) == reach_count(ends, b, m),
{
    lemma_count_mono(ends, a, b, m);
    lemma_count_mono(ends, b, a, m);
}

proof fn lemma_rank_split(ca: int, ma: int, cb: int, mb: int, n: int)
    requires
        0 <= ma < n,
        0 <= mb < n,
        ca >= 0,
        cb >= 0,
        ca * n + ma == cb * n + mb,
    ensures
        ca == cb,
        ma == mb,
{
    if ca < cb {
        assert(ca * n + ma < cb * n) by (nonlinear_arith)
            requires 0 <= ma < n, ca < cb;
    } else if cb < ca {
        assert(cb * n + mb < ca * n) by (nonlinear_arith)
            requires 0 <= mb < n, cb < ca;
    }
}

proof fn lemma_rank_less(ca: int, ma: int, cb: int, mb: int, n: int)
    requires
        0 <= ma < n,
        0 <= mb < n,
        0 <= ca < cb,
    ensures
        ca * n + ma < cb * n + mb,
{
    assert(ca * n + ma < cb * n + mb) by (nonlinear_arith)
        requires 0 <= ma < n, 0 <= mb, ca < cb;
}

impl IndexedGraph {
    /// The nodes reached from `v` along scoped edges (`rev` false), or the nodes
    /// that reach `v` (`rev` true), by a worklist search.
    fn reach_set(&self, Ghost(nodes): Ghost<Seq<GraphNodeId>>, v: usize, rev: bool) -> (r: Vec<bool>)
        requires
            self.wf(nodes),
            v < nodes.len(),
        ensures
            r@.len() == nodes.len(),
            forall|u: int| 0 <= u < nodes.len() ==> (#[trigger] r@[u] <==> reached_dir(self.ends@, rev, v as int, u)),
    {
        let n = self.outgoing.len();
        let ghost ends = self.ends@;
        proof {
            self.lemma_outgoing_bound(nodes);
            self.lemma_incoming_bound(nodes);
        }
        let mut reached: Vec<bool> = Vec::new();
        let mut done: Vec<bool> = Vec::new();
        let mut w: usize = 0;
        while w < n
            invariant
                w <= n,
                reached@.len() == w,
                done@.len() == w,
                forall|x: int| 0 <= x < w ==> !(#[trigger] reached@[x]),
                forall|x: int| 0 <= x < w ==> !(#[trigger] done@[x]),
            decreases n - w,
        {
            reached.push(false);
            done.push(false);
            w += 1;
        }
        proof { lemma_unvisited_mark(reached@, v as int); }
        reached.set(v, true);
        let mut todo: Vec<usize> = Vec::new();
        todo.push(v);
        proof {
            assert(todo@[0] == v);
            assert forall|u: int| 0 <= u < n && #[trigger] reached@[u] && !done@[u] implies todo@.contains(u as usize) by {
                assert(u == v as int);
            }
            assert forall|u: int| 0 <= u < n && #[trigger] reached@[u] implies reached_dir(ends, rev, v as int, u) by {
                assert(u == v as int);
            }
        }
        while todo.len() > 0
            invariant
                self.wf(nodes),
                ends == self.ends@,
                n == nodes.len(),
                v < n,
                reached@.len() == n,
                done@.len() == n,
                reached@[v as int],
                forall|w: int, k: int| 0 <= w < n && 0 <= k < self.outgoing@[w]@.len() ==> (#[trigger] self.outgoing@[w]@[k]).0 < n,
                forall|w: int, k: int| 0 <= w < n && 0 <= k < self.incoming@[w]@.len() ==> (#[trigger] self.incoming@[w]@[k]).0 < n,
                forall|u: int| 0 <= u < n && #[trigger] reached@[u] ==> reached_dir(ends, rev, v as int, u),
                forall|q: int| 0 <= q < todo@.len() ==> (#[trigger] todo@[q]) < n && reached@[todo@[q] as int],
                forall|u: int| 0 <= u < n && #[trigger] done@[u] ==> reached@[u],
                forall|u: int| 0 <= u < n && #[trigger] reached@[u] && !done@[u] ==> todo@.contains(u as usize),
                forall|i: int| #![trigger ends[i]] 0 <= i < ends.len() ==> if rev {
                    done@[ends[i].1 as int] ==> reached@[ends[i].0 as int]
                } else {
                    done@[ends[i].0 as int] ==> reached@[ends[i].1 as int]
                },
            decreases unvisited(reached@), unvisited(done@), todo@.len(),
        {
            let ghost ur = unvisited(reached@);
            let ghost ud = unvisited(done@);
            let ghost t0 = todo@;
            let x = todo.pop().unwrap();
            proof {
                assert(todo@ =~= t0.drop_last());
                assert(x == t0[t0.len() - 1]);
            }
            if !done[x] {
                let len = if rev { self.incoming[x].len() } else { self.outgoing[x].len() };
                let ghost tl = todo@.len();
                proof {
                    assert forall|u: int| 0 <= u < n && #[trigger] reached@[u] && !done@[u] && u != x implies todo@.contains(u as usize) by {
                        assert(t0.contains(u as usize));
                        let q = choose|q: int| 0 <= q < t0.len() && t0[q] == u as usize;
                        assert(q != t0.len() - 1);
                        assert(todo@[q] == u as usize);
                    }
                }
                let mut k: usize = 0;
                while k < len
                    invariant
                        self.wf(nodes),
                        ends == self.ends@,
                        n == nodes.len(),
                        v < n,
                        x < n,
                        reached@[x as int],
                        !done@[x as int],
                        len == (if rev { self.incoming@[x as int]@.len() } else { self.outgoing@[x as int]@.len() }),
                        k <= len,
                        reached@.len() == n,
                        done@.len() == n,
                        reached@[v as int],
                        forall|w: int, k: int| 0 <= w < n && 0 <= k < self.outgoing@[w]@.len() ==> (#[trigger] self.outgoing@[w]@[k]).0 < n,
                        forall|w: int, k: int| 0 <= w < n && 0 <= k < self.incoming@[w]@.len() ==> (#[trigger] self.incoming@[w]@[k]).0 < n,
                        forall|u: int| 0 <= u < n && #[trigger] reached@[u] ==> reached_dir(ends, rev, v as int, u),
                        forall|q: int| 0 <= q < todo@.len() ==> (#[trigger] todo@[q]) < n && reached@[todo@[q] as int],
                        forall|u: int| 0 <= u < n && #[trigger] done@[u] ==> reached@[u],
                        forall|u: int| 0 <= u < n && #[trigger] reached@[u] && !done@[u] && u != x ==> todo@.contains(u as usize),
                        forall|i: int| #![trigger ends[i]] 0 <= i < ends.len() ==> if rev {
                            done@[ends[i].1 as int] ==> reached@[ends[i].0 as int]
                        } else {
                            done@[ends[i].0 as int] ==> reached@[ends[i].1 as int]
                        },
                        rev ==> forall|q: int| 0 <= q < k ==> reached@[(#[trigger] self.incoming@[x as int]@[q]).0 as int],
                        !rev ==> forall|q: int| 0 <= q < k ==> reached@[(#[trigger] self.outgoing@[x as int]@[q]).0 as int],
                        unvisited(reached@) <= ur,
                        todo@.len() + unvisited(reached@) == tl + ur,
                        unvisited(done@) == ud,
                    decreases len - k,
                {
                    let c = if rev { self.incoming[x][k].0 } else { self.outgoing[x][k].0 };
                    proof {
                        if rev {
                            let i = self.in_owner@[x as int][k as int];
                            assert(ends[i] == (c, x));
                            lemma_reach_prepend(ends, i, x as int, v as int);
                        } else {
                            let i = self.out_owner@[x as int][k as int];
                            assert(ends[i] == (x, c));
                            lemma_reach_append(ends, v as int, x as int, i);
                        }
                    }
                    let ghost r0 = reached@;
                    if !reached[c] {
                        let ghost t1 = todo@;
                        proof { lemma_unvisited_mark(reached@, c as int); }
                        reached.set(c, true);
                        todo.push(c);
                        proof {
                            assert forall|u: int| 0 <= u < n && #[trigger] reached@[u] && !done@[u] && u != x implies todo@.contains(u as usize) by {
                                if u == c as int {
                                    assert(todo@[t1.len() as int] == c);
                                } else {
                                    let q = choose|q: int| 0 <= q < t1.len() && t1[q] == u as usize;
                                    assert(todo@[q] == u as usize);
                                }
                            }
                            assert forall|q: int| 0 <= q < todo@.len() implies (#[trigger] todo@[q]) < n && reached@[todo@[q] as int] by {
                                if q < t1.len() { assert(todo@[q] == t1[q]); }
                            }
                        }
                    }
                    proof {
                        assert(reached@[c as int]);
                        if rev {
                            assert forall|q: int| 0 <= q < k + 1 implies reached@[(#[trigger] self.incoming@[x as int]@[q]).0 as int] by {
                                if q == k {
                                    assert(self.incoming@[x as int]@[q].0 == c);
                                } else {
                                    assert(r0[(self.incoming@[x as int]@[q]).0 as int]);
                                }
                            }
                        } else {
                            assert forall|q: int| 0 <= q < k + 1 implies reached@[(#[trigger] self.outgoing@[x as int]@[q]).0 as int] by {
                                if q == k {
                                    assert(self.outgoing@[x as int]@[q].0 == c);
                                } else {
                                    assert(r0[(self.outgoing@[x as int]@[q]).0 as int]);
                                }
                            }
                        }
                    }
                    k += 1;
                }
                proof { lemma_unvisited_mark(done@, x as int); }
                done.set(x, true);
                proof {
                    assert forall|i: int| #![trigger ends[i]] 0 <= i < ends.len() implies (if rev {
                        done@[ends[i].1 as int] ==> reached@[ends[i].0 as int]
                    } else {
                        done@[ends[i].0 as int] ==> reached@[ends[i].1 as int]
                    }) by {
                        if rev {
                            if ends[i].1 == x {
                                assert(self.incoming@[x as int]@.contains((ends[i].0, self.edges@[i].id)));
                                let q = choose|q: int| 0 <= q < self.incoming@[x as int]@.len() && self.incoming@[x as int]@[q] == (ends[i].0, self.edges@[i].id);
                                assert(reached@[(self.incoming@[x as int]@[q]).0 as int]);
                            }
                        } else {
                            if ends[i].0 == x {
                                assert(self.outgoing@[x as int]@.contains((ends[i].1, self.edges@[i].id)));
                                let q = choose|q: int| 0 <= q < self.outgoing@[x as int]@.len() && self.outgoing@[x as int]@[q] == (ends[i].1, self.edges@[i].id);
                                assert(reached@[(self.outgoing@[x as int]@[q]).0 as int]);
                            }
                        }
                    }
                }
            } else {
                proof {
                    assert forall|u: int| 0 <= u < n && #[trigger] reached@[u] && !done@[u] implies todo@.contains(u as usize) by {
                        assert(t0.contains(u as usize));
                        let q = choose|q: int| 0 <= q < t0.len() && t0[q] == u as usize;
                        if q == t0.len() - 1 {
                            assert(done@[u]);
                        } else {
                            assert(todo@[q] == u as usize);
                        }
                    }
                }
            }
            proof {
                assert forall|q: int| 0 <= q < todo@.len() implies (#[trigger] todo@[q]) < n && reached@[todo@[q] as int] by {}
                assert forall|u: int| 0 <= u < n && #[trigger] reached@[u] && !done@[u] implies todo@.contains(u as usize) by {}
            }
        }
        proof {
            assert forall|u: int| 0 <= u < n && #[trigger] reached@[u] implies done@[u] by {
                if !done@[u] {
                    assert(todo@.contains(u as usize));
                }
            }
            assert forall|u: int| 0 <= u < n implies (#[trigger] reached@[u] <==> reached_dir(ends, rev, v as int, u)) by {
                if reached_dir(ends, rev, v as int, u) && u != v as int {
                    assert forall|i: int| 0 <= i < ends.len() implies ends[i].0 < reached@.len() && ends[i].1 < reached@.len() by {
                        assert(ends[i].0 < n);
                    }
                    if rev {
                        let p = choose|p: Seq<int>| #[trigger] index_walk(ends, p, u, v as int);
                        assert forall|i: int| 0 <= i < ends.len() && reached@[ends[i].1 as int] implies #[trigger] reached@[ends[i].0 as int] by {
                            assert(done@[ends[i].1 as int]);
                        }
                        lemma_closed_walk_back(ends, reached@, p, u, v as int, 0);
                    } else {
                        let p = choose|p: Seq<int>| #[trigger] index_walk(ends, p, v as int, u);
                        assert forall|i: int| 0 <= i < ends.len() && reached@[ends[i].0 as int] implies #[trigger] reached@[ends[i].1 as int] by {
                            assert(done@[ends[i].0 as int]);
                        }
                        lemma_closed_walk(ends, reached@, p, v as int, u, p.len() - 1);
                    }
                }
            }
        }
        reached
    }
}

impl IndexedGraph {
    /// Strongly connected components, each found as the nodes that both reach and
    /// are reached from its smallest node, with the component index of every node.
    /// Each component costs one forward and one backward search over the whole graph.
    fn components(&self, Ghost(nodes): Ghost<Seq<GraphNodeId>>) -> (r: (Vec<Vec<usize>>, Vec<usize>, Ghost<Seq<int>>))
        requires
            self.wf(nodes),
        ensures
            components_ok(nodes.len(), self.ends@, comps_view(r.0@), r.1@, r.2@),
    {
        let n = self.outgoing.len();
        let ghost ends = self.ends@;
        let mut assigned: Vec<bool> = Vec::new();
        let mut membership: Vec<usize> = Vec::new();
        let mut w: usize = 0;
        while w < n
            invariant
                w <= n,
                assigned@.len() == w,
                membership@.len() == w,
                forall|x: int| 0 <= x < w ==> !(#[trigger] assigned@[x]),
            decreases n - w,
        {
            assigned.push(false);
            membership.push(0);
            w += 1;
        }
        let mut comps: Vec<Vec<usize>> = Vec::new();
        let mut v: usize = 0;
        while v < n
            invariant
                self.wf(nodes),
                ends == self.ends@,
                n == nodes.len(),
                v <= n,
                assigned@.len() == n,
                membership@.len() == n,
                comps@.len() <= v,
                forall|c: int| #![trigger comps@[c]] 0 <= c < comps@.len() ==> comps@[c]@.len() > 0 && comps@[c]@[0] < v,
                forall|c: int, a: int, b: int| 0 <= c < comps@.len() && 0 <= a < b < comps@[c]@.len() ==> (#[trigger] comps@[c]@[a]) < (#[trigger] comps@[c]@[b]),
                forall|c: int, d: int| 0 <= c < d < comps@.len() ==> (#[trigger] comps@[c])@[0] < (#[trigger] comps@[d])@[0],
                forall|c: int, x: usize| #![trigger comps@[c]@.contains(x)] 0 <= c < comps@.len() ==> (comps@[c]@.contains(x) <==> (x < n && mutual(ends, comps@[c]@[0] as int, x as int))),
                forall|c: int, d: int| 0 <= c < comps@.len() && 0 <= d < comps@.len() && c != d ==> !mutual(ends, (#[trigger] comps@[c])@[0] as int, (#[trigger] comps@[d])@[0] as int),
                forall|u: int| 0 <= u < n && #[trigger] assigned@[u] ==> membership@[u] < comps@.len() && mutual(ends, comps@[membership@[u] as int]@[0] as int, u),
                forall|u: int, c: int| 0 <= u < n && !(#[trigger] assigned@[u]) && 0 <= c < comps@.len() ==> !mutual(ends, (#[trigger] comps@[c])@[0] as int, u),
                forall|u: int| 0 <= u < v ==> #[trigger] assigned@[u],
            decreases n - v,
        {
            if !assigned[v] {
                let fwd = self.reach_set(Ghost(nodes), v, false);
                let bwd = self.reach_set(Ghost(nodes), v, true);
                let c = comps.len();
                let ghost a0 = assigned@;
                let ghost m0 = membership@;
                let mut comp: Vec<usize> = Vec::new();
                let mut u: usize = 0;
                proof {
                    assert forall|x: int| 0 <= x < n && #[trigger] a0[x] implies !mutual(ends, v as int, x) by {
                        let d = m0[x] as int;
                        let rd = comps@[d]@[0] as int;
                        if mutual(ends, v as int, x) {
                            lemma_reach_trans(ends, rd, x, v as int);
                            lemma_reach_trans(ends, v as int, x, rd);
                            assert(!assigned@[v as int]);
                            assert(mutual(ends, (comps@[d])@[0] as int, v as int));
                        }
                    }
                }
                while u < n
                    invariant
                        n == nodes.len(),
                        ends == self.ends@,
                        v < n,
                        u <= n,
                        c == comps@.len(),
                        fwd@.len() == n,
                        bwd@.len() == n,
                        forall|x: int| 0 <= x < n ==> (#[trigger] fwd@[x] <==> reaches(ends, v as int, x)),
                        forall|x: int| 0 <= x < n ==> (#[trigger] bwd@[x] <==> reaches(ends, x, v as int)),
                        a0.len() == n,
                        m0.len() == n,
                        forall|x: int| 0 <= x < n && #[trigger] a0[x] ==> !mutual(ends, v as int, x),
                        assigned@.len() == n,
                        membership@.len() == n,
                        forall|x: int| 0 <= x < n ==> (#[trigger] assigned@[x] <==> a0[x] || (x < u && mutual(ends, v as int, x))),
                        forall|x: int| 0 <= x < n ==> #[trigger] membership@[x] == if a0[x] { m0[x] } else if x < u && mutual(ends, v as int, x) { c } else { m0[x] },
                        forall|a: int, b: int| 0 <= a < b < comp@.len() ==> (#[trigger] comp@[a]) < (#[trigger] comp@[b]),
                        forall|a: int| 0 <= a < comp@.len() ==> (#[trigger] comp@[a]) < u,
                        forall|x: usize| #[trigger] comp@.contains(x) <==> (x < u && mutual(ends, v as int, x as int)),
                    decreases n - u,
                {
                    if fwd[u] && bwd[u] {
                        let ghost cp = comp@;
                        comp.push(u);
                        assigned.set(u, true);
                        membership.set(u, c);
                        proof {
                            assert(!a0[u as int]);
                            assert forall|x: usize| #[trigger] comp@.contains(x) <==> (x < u + 1 && mutual(ends, v as int, x as int)) by {
                                if comp@.contains(x) && x != u {
                                    let q = choose|q: int| 0 <= q < comp@.len() && comp@[q] == x;
                                    assert(cp[q] == x);
                                    assert(cp.contains(x));
                                }
                                if x == u {
                                    assert(comp@[cp.len() as int] == u);
                                } else if x < u && mutual(ends, v as int, x as int) {
                                    assert(cp.contains(x));
                                    let q = choose|q: int| 0 <= q < cp.len() && cp[q] == x;
                                    assert(comp@[q] == x);
                                }
                            }
                            assert forall|a: int, b: int| 0 <= a < b < comp@.len() implies (#[trigger] comp@[a]) < (#[trigger] comp@[b]) by {
                                if b == cp.len() { assert(comp@[a] == cp[a]); } else { assert(comp@[a] == cp[a] && comp@[b] == cp[b]); }
                            }
                            assert forall|a: int| 0 <= a < comp@.len() implies (#[trigger] comp@[a]) < u + 1 by {
                                if a < cp.len() { assert(comp@[a] == cp[a]); }
                            }
                        }
                    } else {
                        proof {
                            assert(!mutual(ends, v as int, u as int));
                            assert forall|x: usize| #[trigger] comp@.contains(x) <==> (x < u + 1 && mutual(ends, v as int, x as int)) by {
                                if x == u {
                                    assert(!mutual(ends, v as int, x as int));
                                }
                            }
                        }
                    }
                    u += 1;
                }
                proof {
                    // The new component holds v, and no smaller node.
                    assert(mutual(ends, v as int, v as int));
                    assert(comp@.contains(v));
                    let q = choose|q: int| 0 <= q < comp@.len() && comp@[q] == v;
                    if q > 0 {
                        let y = comp@[0];
                        assert(comp@.contains(y));
                        assert(y < v);
                        assert(a0[y as int]);
                        let d = m0[y as int] as int;
                        assert(mutual(ends, comps@[d]@[0] as int, y as int));
                        lemma_reach_trans(ends, comps@[d]@[0] as int, y as int, v as int);
                        lemma_reach_trans(ends, v as int, y as int, comps@[d]@[0] as int);
                        assert(false);
                    }
                    assert(comp@[0] == v);
                }
                let ghost cs0 = comps@;
                comps.push(comp);
                proof {
                    let cs = comps@;
                    assert(cs[c as int]@[0] == v);
                    assert forall|k: int| #![trigger cs[k]] 0 <= k < cs.len() implies cs[k]@.len() > 0 && cs[k]@[0] < v + 1 by {
                        if k < c { assert(cs[k] == cs0[k]); }
                    }
                    assert forall|k: int, a: int, b: int| 0 <= k < cs.len() && 0 <= a < b < cs[k]@.len() implies (#[trigger] cs[k]@[a]) < (#[trigger] cs[k]@[b]) by {
                        if k < c { assert(cs[k] == cs0[k]); }
                    }
                    assert forall|k: int, d: int| 0 <= k < d < cs.len() implies (#[trigger] cs[k])@[0] < (#[trigger] cs[d])@[0] by {
                        assert(cs[k] == cs0[k]);
                        if d < c { assert(cs[d] == cs0[d]); }
                    }
                    assert forall|k: int, x: usize| #![trigger cs[k]@.contains(x)] 0 <= k < cs.len() implies (cs[k]@.contains(x) <==> (x < n && mutual(ends, cs[k]@[0] as int, x as int))) by {
                        if k < c { assert(cs[k] == cs0[k]); }
                    }
                    assert forall|k: int, d: int| 0 <= k < cs.len() && 0 <= d < cs.len() && k != d implies !mutual(ends, (#[trigger] cs[k])@[0] as int, (#[trigger] cs[d])@[0] as int) by {
                        if k < c && d < c {
                            assert(cs[k] == cs0[k] && cs[d] == cs0[d]);
                        } else if k < c {
                            assert(cs[k] == cs0[k]);
                            assert(!mutual(ends, cs0[k]@[0] as int, v as int));
                        } else {
                            assert(cs[d] == cs0[d]);
                            assert(!mutual(ends, cs0[d]@[0] as int, v as int));
                        }
                    }
                    assert forall|x: int| 0 <= x < n && #[trigger] assigned@[x] implies membership@[x] < cs.len() && mutual(ends, cs[membership@[x] as int]@[0] as int, x) by {
                        if a0[x] {
                            assert(cs[m0[x] as int] == cs0[m0[x] as int]);
                        }
                    }
                    assert forall|x: int, k: int| 0 <= x < n && !(#[trigger] assigned@[x]) && 0 <= k < cs.len() implies !mutual(ends, (#[trigger] cs[k])@[0] as int, x) by {
                        if k < c {
                            assert(cs[k] == cs0[k]);
                        }
                    }
                }
            } else {
            }
            v += 1;
        }
        let ghost rank = Seq::new(n as nat, |u: int| reach_count(ends, u, n as nat) * n + membership@[u]);
        proof {
            let cv = comps_view(comps@);
            assert forall|u: int| 0 <= u < n implies #[trigger] membership@[u] < cv.len() by {
                assert(assigned@[u]);
            }
            // Nodes share a component exactly when they reach each other.
            assert forall|u: int, x: int| #![trigger membership@[u], membership@[x]] 0 <= u < n && 0 <= x < n implies (membership@[u] == membership@[x] <==> mutual(ends, u, x)) by {
                assert(assigned@[u] && assigned@[x]);
                let ru = comps@[membership@[u] as int]@[0] as int;
                let rx = comps@[membership@[x] as int]@[0] as int;
                if membership@[u] == membership@[x] {
                    lemma_reach_trans(ends, u, ru, x);
                    lemma_reach_trans(ends, x, ru, u);
                } else if mutual(ends, u, x) {
                    lemma_reach_trans(ends, ru, u, x);
                    lemma_reach_trans(ends, ru, x, rx);
                    lemma_reach_trans(ends, rx, x, u);
                    lemma_reach_trans(ends, rx, u, ru);
                    assert(mutual(ends, comps@[membership@[u] as int]@[0] as int, comps@[membership@[x] as int]@[0] as int));
                }
            }
            assert forall|k: int| 0 <= k < cv.len() implies (#[trigger] cv[k]).len() > 0 by {
                assert(cv[k] == comps@[k]@);
            }
            assert forall|k: int, a: int, b: int| 0 <= k < cv.len() && 0 <= a < b < cv[k].len() implies (#[trigger] cv[k][a]) < (#[trigger] cv[k][b]) by {
                assert(cv[k] == comps@[k]@);
            }
            assert forall|k: int, d: int| 0 <= k < d < cv.len() implies (#[trigger] cv[k])[0] < (#[trigger] cv[d])[0] by {
                assert(cv[k] == comps@[k]@ && cv[d] == comps@[d]@);
            }
            assert forall|k: int, x: usize| 0 <= k < cv.len() implies (#[trigger] cv[k].contains(x) <==> (x < n && membership@[x as int] == k)) by {
                assert(cv[k] == comps@[k]@);
                if comps@[k]@.contains(x) {
                    assert(assigned@[x as int]);
                    let d = membership@[x as int] as int;
                    if d != k {
                        let rk = comps@[k]@[0] as int;
                        let rd = comps@[d]@[0] as int;
                        lemma_reach_trans(ends, rk, x as int, rd);
                        lemma_reach_trans(ends, rd, x as int, rk);
                        assert(mutual(ends, comps@[k]@[0] as int, comps@[d]@[0] as int));
                    }
                }
                if x < n && membership@[x as int] == k {
                    assert(assigned@[x as int]);
                }
            }
            assert forall|u: int, x: int| 0 <= u < n && 0 <= x < n implies ((#[trigger] membership@[u] == #[trigger] membership@[x]) <==> rank[u] == rank[x]) by {
                assert(membership@[u] < n && membership@[x] < n) by {
                    assert(assigned@[u] && assigned@[x]);
                }
                if membership@[u] == membership@[x] {
                    assert(mutual(ends, u, x));
                    assert forall|y: int| 0 <= y < n implies (reaches(ends, y, u) <==> reaches(ends, y, x)) by {
                        if reaches(ends, y, u) { lemma_reach_trans(ends, y, u, x); }
                        if reaches(ends, y, x) { lemma_reach_trans(ends, y, x, u); }
                    }
                    lemma_count_eq(ends, u, x, n as nat);
                }
                if rank[u] == rank[x] {
                    lemma_rank_split(reach_count(ends, u, n as nat) as int, membership@[u] as int, reach_count(ends, x, n as nat) as int, membership@[x] as int, n as int);
                }
            }
            assert forall|i: int| #![trigger ends[i]] 0 <= i < ends.len() implies rank[ends[i].0 as int] <= rank[ends[i].1 as int] by {
                let a = ends[i].0 as int;
                let b = ends[i].1 as int;
                assert(a < n && b < n);
                assert(membership@[a] < n && membership@[b] < n) by {
                    assert(assigned@[a] && assigned@[b]);
                }
                assert forall|y: int| 0 <= y < n && reaches(ends, y, a) implies reaches(ends, y, b) by {
                    lemma_reach_append(ends, y, a, i);
                }
                if membership@[a] == membership@[b] {
                    assert(rank[a] == rank[b]);
                } else {
                    assert(!mutual(ends, a, b));
                    assert(reaches(ends, a, b)) by {
                        lemma_reach_append(ends, a, a, i);
                    }
                    assert(!reaches(ends, b, a));
                    lemma_count_strict(ends, a, b, n as nat, b);
                    lemma_rank_less(reach_count(ends, a, n as nat) as int, membership@[a] as int, reach_count(ends, b, n as nat) as int, membership@[b] as int, n as int);
                }
            }
            assert forall|u: int, x: int| 0 <= u < n && 0 <= x < n && #[trigger] membership@[u] == #[trigger] membership@[x] implies reaches(ends, u, x) by {}
        }
        (comps, membership, Ghost(rank))
    }
}



/// `path` (scoped edge indices) is a directed cycle: each edge ends where the next
/// one starts, and the last ends where the first starts.
pub open spec fn is_cycle(ends: Seq<(usize, usize)>, path: Seq<int>) -> bool {
    &&& path.len() > 0
    &&& forall|k: int| 0 <= k < path.len() ==> 0 <= #[trigger] path[k] < ends.len()
    &&& forall|k: int| 0 <= k < path.len() ==> ends[#[trigger] path[k]].1 == ends[path[(k + 1) % path.len() as int]].0
}

/// Edge identities of a path of scoped edges.
pub open spec fn path_ids(edges: Seq<GraphSnapshotEdge>, path: Seq<int>) -> Seq<GraphEdgeId> {
    path.map_values(|i: int| edges[i].id)
}

/// A walk of scoped edges from `a` to `b` whose edges all end inside `component`.
pub open spec fn walk_within(ends: Seq<(usize, usize)>, membership: Seq<usize>, component: usize, path: Seq<int>, a: int, b: int) -> bool {
    &&& path.len() > 0
    &&& forall|k: int| 0 <= k < path.len() ==> 0 <= #[trigger] path[k] < ends.len()
    &&& ends[path[0]].0 == a
    &&& ends[path[path.len() - 1]].1 == b
    &&& forall|k: int| 0 <= k < path.len() - 1 ==> ends[#[trigger] path[k]].1 == ends[path[k + 1]].0
    &&& forall|k: int| 0 <= k < path.len() ==> membership[ends[#[trigger] path[k]].1 as int] == component
}

/// Every in-component neighbour of a node listed in `out` is reached.
pub open spec fn expanded(out: Seq<(usize, GraphEdgeId)>, membership: Seq<usize>, component: usize, reached: Seq<bool>) -> bool {
    forall|q: int| 0 <= q < out.len() && membership[out[q].0 as int] == component ==> reached[#[trigger] out[q].0 as int]
}

/// Reached nodes are closed under edges that end inside the component.
pub open spec fn closed_within(ends: Seq<(usize, usize)>, membership: Seq<usize>, component: usize, reached: Seq<bool>) -> bool {
    forall|i: int|
        0 <= i < ends.len() && reached[ends[i].0 as int] && membership[ends[i].1 as int] == component ==> reached[
            #[trigger] ends[i].1 as int]
}

/// A walk that starts at a reached node stays among reached nodes.
proof fn lemma_walk_stays(ends: Seq<(usize, usize)>, membership: Seq<usize>, component: usize, reached: Seq<bool>, path: Seq<int>, a: int, b: int, m: int)
    requires
        closed_within(ends, membership, component, reached),
        walk_within(ends, membership, component, path, a, b),
        reached[a],
        0 <= m < path.len(),
    ensures
        reached[ends[path[m]].1 as int],
    decreases m,
{
    if m > 0 {
        lemma_walk_stays(ends, membership, component, reached, path, a, b, m - 1);
        assert(ends[path[m - 1]].1 == ends[path[m]].0);
    }
    assert(membership[ends[path[m]].1 as int] == component);
}

impl IndexedGraph {
    /// A directed cycle through the component's smallest node, found by breadth-first
    /// search inside the component; empty when the search finds none.
    fn witness(&self, Ghost(nodes): Ghost<Seq<GraphNodeId>>, component: usize, members: &Vec<usize>, membership: &Vec<usize>) -> (r: Vec<GraphEdgeId>)
        requires
            self.wf(nodes),
            membership@.len() == nodes.len(),
            members@.len() > 0,
            members@[0] < nodes.len(),
        ensures
            r@.len() == 0 || exists|path: Seq<int>| #[trigger] is_cycle(self.ends@, path) && path_ids(self.edges@, path) == r@
                && forall|k: int| 0 <= k < path.len() ==> membership@[self.ends@[#[trigger] path[k]].0 as int] == component,
            // nothing is found only when the smallest node is outside the component, has no
            // edge into it, or has one whose end does not lead back inside the component
            r@.len() == 0 ==> ({
                let start = members@[0] as int;
                ||| membership@[start] != component
                ||| forall|i: int| 0 <= i < self.ends@.len() && self.ends@[i].0 == start ==> membership@[#[trigger] self.ends@[i].1 as int] != component
                ||| exists|i: int| 0 <= i < self.ends@.len() && self.ends@[i].0 == start && membership@[#[trigger] self.ends@[i].1 as int] == component
                    && !exists|path: Seq<int>| walk_within(self.ends@, membership@, component, path, self.ends@[i].1 as int, start)
            }),
    {
        let n = self.outgoing.len();
        let start = members[0];
        proof { self.lemma_outgoing_bound(nodes); }
        // The first outgoing edge of `start` that stays in the component.
        let mut j: usize = 0;
        while j < self.outgoing[start].len() && membership[self.outgoing[start][j].0] != component
            invariant
                self.wf(nodes),
                n == nodes.len(),
                start < n,
                membership@.len() == n,
                j <= self.outgoing@[start as int]@.len(),
                start == members@[0],
                forall|x: int, k: int| 0 <= x < n && 0 <= k < self.outgoing@[x]@.len() ==> (#[trigger] self.outgoing@[x]@[k]).0 < n,
                forall|q: int| 0 <= q < j ==> membership@[(#[trigger] self.outgoing@[start as int]@[q]).0 as int] != component,
            decreases self.outgoing@[start as int]@.len() - j,
        {
            proof {
                let i = self.out_owner@[start as int][j as int];
                assert(self.ends@[i].1 < n);
            }
            j += 1;
        }
        if j == self.outgoing[start].len() {
            proof {
                assert forall|i: int| 0 <= i < self.ends@.len() && self.ends@[i].0 == start implies membership@[#[trigger] self.ends@[i].1 as int] != component by {
                    assert(self.outgoing@[start as int]@.contains((self.ends@[i].1, self.edges@[i].id)));
                    let q = choose|q: int| 0 <= q < self.outgoing@[start as int]@.len() && self.outgoing@[start as int]@[q] == (self.ends@[i].1, self.edges@[i].id);
                    assert(self.outgoing@[start as int]@[q].0 == self.ends@[i].1);
                }
            }
            return Vec::new();
        }
        let (target, first) = self.outgoing[start][j];
        let ghost first_i = self.out_owner@[start as int][j as int];
        proof {
            assert(self.ends@[first_i] == (start, target));
            assert(self.edges@[first_i].id == first);
        }
        if membership[start] != component {
            return Vec::new();
        }
        if target == start {
            let r = vec![first];
            proof {
                let path = seq![first_i];
                assert(is_cycle(self.ends@, path));
                assert(path_ids(self.edges@, path) =~= r@);
            }
            return r;
        }
        // Breadth-first search from `target` back to `start` inside the component.
        let mut pred: Vec<Option<(usize, GraphEdgeId)>> = Vec::new();
        let mut reached: Vec<bool> = Vec::new();
        let mut v: usize = 0;
        while v < n
            invariant
                v <= n,
                pred@.len() == v,
                reached@.len() == v,
                forall|w: int| 0 <= w < v ==> (#[trigger] pred@[w]) is None,
                forall|w: int| 0 <= w < v ==> !(#[trigger] reached@[w]),
            decreases n - v,
        {
            pred.push(None);
            reached.push(false);
            v += 1;
        }
        reached.set(target, true);
        proof {
            assert(!reached@[start as int]);
        }
        let ghost mut via_edge: Seq<int> = Seq::new(n as nat, |w: int| -1);
        let ghost mut dist: Seq<int> = Seq::new(n as nat, |w: int| 0);
        let mut queue: Vec<usize> = Vec::new();
        queue.push(target);
        proof {
            assert forall|w: int| 0 <= w < n && reached@[w] implies exists|k: int| 0 <= k < queue@.len() && #[trigger] queue@[k] == w by {
                assert(w == target);
                assert(queue@[0] == w);
            }
        }
        let mut head: usize = 0;
        while head < queue.len()
            invariant
                self.wf(nodes),
                n == nodes.len(),
                start < n,
                target < n,
                target != start,
                membership@.len() == n,
                0 <= first_i < self.ends@.len(),
                self.ends@[first_i] == (start, target),
                self.edges@[first_i].id == first,
                membership@[start as int] == component,
                membership@[target as int] == component,
                pred@.len() == n,
                reached@.len() == n,
                via_edge.len() == n,
                dist.len() == n,
                reached@[target as int],
                pred@[target as int] is None,
                dist[target as int] == 0,
                !reached@[start as int],
                head <= queue@.len(),
                start == members@[0],
                forall|k: int| 0 <= k < head ==> #[trigger] expanded(self.outgoing@[queue@[k] as int]@, membership@, component, reached@),
                forall|w: int| 0 <= w < n && reached@[w] ==> exists|k: int| 0 <= k < queue@.len() && #[trigger] queue@[k] == w,
                forall|x: int, k: int| 0 <= x < n && 0 <= k < self.outgoing@[x]@.len() ==> (#[trigger] self.outgoing@[x]@[k]).0 < n,
                forall|w: int| 0 <= w < n && #[trigger] reached@[w] ==> dist[w] >= 0,
                forall|k: int| 0 <= k < queue@.len() ==> (#[trigger] queue@[k]) < n && reached@[queue@[k] as int],
                forall|w: int| 0 <= w < n && reached@[w] ==> membership@[w] == membership@[target as int],
                forall|w: int| #![trigger pred@[w]] 0 <= w < n && w != target ==> (reached@[w] <==> pred@[w] is Some),
                forall|w: int| #![trigger pred@[w]] 0 <= w < n && pred@[w] is Some ==> {
                    let (u, e) = pred@[w]->0;
                    let i = via_edge[w];
                    &&& 0 <= i < self.ends@.len()
                    &&& self.ends@[i] == (u, w as usize)
                    &&& self.edges@[i].id == e
                    &&& u < n
                    &&& reached@[u as int]
                    &&& dist[u as int] < dist[w]
                    &&& dist[w] >= 1
                },
            decreases unvisited(reached@), queue@.len() - head,
        {
            let node = queue[head];
            head += 1;
            let ghost reached_before = reached@;
            let ghost queue_before = queue@.len();
            let ghost qb = queue@;
            let mut k: usize = 0;
            while k < self.outgoing[node].len()
                invariant
                    self.wf(nodes),
                    n == nodes.len(),
                    node < n,
                    reached@[node as int],
                    start < n,
                    target < n,
                    target != start,
                    membership@.len() == n,
                    0 <= first_i < self.ends@.len(),
                    self.ends@[first_i] == (start, target),
                    self.edges@[first_i].id == first,
                    membership@[start as int] == component,
                    membership@[target as int] == component,
                    pred@.len() == n,
                    reached@.len() == n,
                    via_edge.len() == n,
                    dist.len() == n,
                    reached@[target as int],
                    pred@[target as int] is None,
                    dist[target as int] == 0,
                    !reached@[start as int],
                    head <= queue@.len(),
                    k <= self.outgoing@[node as int]@.len(),
                    start == members@[0],
                    head >= 1 && head <= queue_before && qb[head - 1] == node && qb.len() == queue_before,
                    forall|kk: int| 0 <= kk < queue_before ==> #[trigger] queue@[kk] == qb[kk],
                    forall|w: int| 0 <= w < n && reached_before[w] ==> #[trigger] reached@[w],
                    reached_before.len() == n,
                    forall|q: int|
                        0 <= q < k && membership@[self.outgoing@[node as int]@[q].0 as int] == component ==> reached@[(#[trigger] self.outgoing@[
                            node as int]@[q]).0 as int],
                    forall|w: int| 0 <= w < n && reached@[w] ==> exists|kk: int| 0 <= kk < queue@.len() && #[trigger] queue@[kk] == w,
                    forall|x: int, q: int| 0 <= x < n && 0 <= q < self.outgoing@[x]@.len() ==> (#[trigger] self.outgoing@[x]@[q]).0 < n,
                    forall|w: int| 0 <= w < n && #[trigger] reached@[w] ==> dist[w] >= 0,
                    queue@.len() >= queue_before,
                    unvisited(reached@) + (queue@.len() - queue_before) == unvisited(reached_before),
                    forall|q: int| 0 <= q < queue@.len() ==> (#[trigger] queue@[q]) < n && reached@[queue@[q] as int],
                    forall|w: int| 0 <= w < n && reached@[w] ==> membership@[w] == membership@[target as int],
                    forall|w: int| #![trigger pred@[w]] 0 <= w < n && w != target ==> (reached@[w] <==> pred@[w] is Some),
                    forall|w: int| #![trigger pred@[w]] 0 <= w < n && pred@[w] is Some ==> {
                        let (u, e) = pred@[w]->0;
                        let i = via_edge[w];
                        &&& 0 <= i < self.ends@.len()
                        &&& self.ends@[i] == (u, w as usize)
                        &&& self.edges@[i].id == e
                        &&& u < n
                        &&& reached@[u as int]
                        &&& dist[u as int] < dist[w]
                        &&& dist[w] >= 1
                    },
                decreases self.outgoing@[node as int]@.len() - k,
            {
                let (next, edge) = self.outgoing[node][k];
                let ghost i = self.out_owner@[node as int][k as int];
                proof {
                    assert(self.ends@[i] == (node, next));
                    assert(self.edges@[i].id == edge);
                }
                if membership[next] == membership[target] && !reached[next] {
                    let ghost pred0 = pred@;
                    let ghost reached0 = reached@;
                    proof { lemma_unvisited_mark(reached@, next as int); }
                    pred.set(next, Some((node, edge)));
                    reached.set(next, true);
                    proof {
                        let via0 = via_edge;
                        let dist0 = dist;
                        via_edge = via_edge.update(next as int, i);
                        dist = dist.update(next as int, dist[node as int] + 1);
                        assert(next != target);
                        assert forall|w: int| #![trigger pred@[w]] 0 <= w < n && pred@[w] is Some implies {
                            let (u, e) = pred@[w]->0;
                            let vi = via_edge[w];
                            &&& 0 <= vi < self.ends@.len()
                            &&& self.ends@[vi] == (u, w as usize)
                            &&& self.edges@[vi].id == e
                            &&& u < n
                            &&& reached@[u as int]
                            &&& dist[u as int] < dist[w]
                            &&& dist[w] >= 1
                        } by {
                            if w != next {
                                assert(pred@[w] == pred0[w]);
                                let pu = pred0[w]->0;
                                let u = pu.0;
                                assert(reached0[u as int]);
                                assert(u != next);
                            }
                        }
                        assert forall|w: int| #![trigger pred@[w]] 0 <= w < n && w != target implies (reached@[w] <==> pred@[w] is Some) by {
                            if w != next {
                                assert(pred@[w] == pred0[w]);
                            }
                        }
                    }
                    if next == start {
                        // Walk the predecessors back from `start` to `target`.
                        let mut path: Vec<GraphEdgeId> = Vec::new();
                        let ghost mut gpath: Seq<int> = Seq::empty();
                        let mut cursor = start;
                        while pred[cursor].is_some()
                            invariant
                                self.wf(nodes),
                                n == nodes.len(),
                                cursor < n,
                                start < n,
                                target < n,
                                membership@.len() == n,
                                0 <= first_i < self.ends@.len(),
                                self.ends@[first_i] == (start, target),
                                self.edges@[first_i].id == first,
                                membership@[start as int] == component,
                                membership@[target as int] == component,
                                
                                pred@.len() == n,
                                reached@.len() == n,
                                via_edge.len() == n,
                                dist.len() == n,
                                reached@[cursor as int],
                                pred@[target as int] is None,
                                forall|w: int| 0 <= w < n && reached@[w] ==> membership@[w] == membership@[target as int],
                                forall|w: int| #![trigger pred@[w]] 0 <= w < n && w != target ==> (reached@[w] <==> pred@[w] is Some),
                                forall|w: int| #![trigger pred@[w]] 0 <= w < n && pred@[w] is Some ==> {
                                    let (u, e) = pred@[w]->0;
                                    let i = via_edge[w];
                                    &&& 0 <= i < self.ends@.len()
                                    &&& self.ends@[i] == (u, w as usize)
                                    &&& self.edges@[i].id == e
                                    &&& u < n
                                    &&& reached@[u as int]
                                    &&& dist[u as int] < dist[w]
                                    &&& dist[w] >= 1
                                },
                                dist[cursor as int] >= 0,
                                path@ == path_ids(self.edges@, gpath),
                                forall|q: int| 0 <= q < gpath.len() ==> 0 <= #[trigger] gpath[q] < self.ends@.len(),
                                gpath.len() == 0 ==> cursor == start,
                                gpath.len() > 0 ==> self.ends@[gpath[0]].1 == start && self.ends@[gpath[gpath.len() - 1]].0 == cursor,
                                forall|q: int| 0 <= q < gpath.len() - 1 ==> self.ends@[#[trigger] gpath[q + 1]].1 == self.ends@[gpath[q]].0,
                                forall|q: int| 0 <= q < gpath.len() ==> reached@[self.ends@[#[trigger] gpath[q]].0 as int],
                                forall|w: int| 0 <= w < n && #[trigger] reached@[w] ==> dist[w] >= 0,
                            decreases dist[cursor as int],
                        {
                            let (parent, id) = match pred[cursor] {
                                Some(x) => x,
                                None => (0, first),
                            };
                            proof {
                                let vi = via_edge[cursor as int];
                                assert(cursor != target);
                                let gp0 = gpath;
                                gpath = gpath.push(vi);
                                assert forall|q: int| 0 <= q < gpath.len() - 1 implies self.ends@[#[trigger] gpath[q + 1]].1 == self.ends@[gpath[q]].0 by {
                                    if q + 1 < gp0.len() {
                                        assert(gpath[q + 1] == gp0[q + 1]);
                                        assert(gpath[q] == gp0[q]);
                                    }
                                }
                                assert forall|q: int| 0 <= q < gpath.len() implies reached@[self.ends@[#[trigger] gpath[q]].0 as int] by {
                                    if q < gp0.len() {
                                        assert(gpath[q] == gp0[q]);
                                    }
                                }
                            }
                            let ghost p0 = path@;
                            path.push(id);
                            proof {
                                assert(path@ =~= path_ids(self.edges@, gpath));
                            }
                            cursor = parent;
                        }
                        proof {
                            assert(cursor == target) by {
                                if cursor != target {
                                    assert(pred@[cursor as int] is Some);
                                }
                            }
                        }
                        // `gpath` runs from `start` back to `target`: reverse it, then
                        // prepend the edge from `start` to `target`.
                        let mut r: Vec<GraphEdgeId> = Vec::new();
                        r.push(first);
                        let mut q: usize = path.len();
                        let ghost mut rpath: Seq<int> = seq![first_i];
                        proof {
                            assert(r@ =~= path_ids(self.edges@, rpath));
                        }
                        while q > 0
                            invariant
                                q <= path@.len(),
                                path@ == path_ids(self.edges@, gpath),
                                gpath.len() == path@.len(),
                                rpath.len() == 1 + (path@.len() - q),
                                rpath[0] == first_i,
                                forall|t: int| 1 <= t < rpath.len() ==> #[trigger] rpath[t] == gpath[path@.len() - t],
                                r@ == path_ids(self.edges@, rpath),
                                forall|t: int| 0 <= t < gpath.len() ==> 0 <= #[trigger] gpath[t] < self.ends@.len(),
                                0 <= first_i < self.ends@.len(),
                                self.edges@[first_i].id == first,
                            decreases q,
                        {
                            q -= 1;
                            r.push(path[q]);
                            proof {
                                let rp0 = rpath;
                                rpath = rpath.push(gpath[q as int]);
                                assert forall|t: int| 1 <= t < rpath.len() implies #[trigger] rpath[t] == gpath[path@.len() - t] by {
                                    if t < rp0.len() {
                                        assert(rpath[t] == rp0[t]);
                                    }
                                }
                                assert(r@ =~= path_ids(self.edges@, rpath));
                            }
                        }
                        proof {
                            let m = gpath.len();
                            assert(m > 0);
                            assert forall|t: int| 0 <= t < rpath.len() implies 0 <= #[trigger] rpath[t] < self.ends@.len() by {
                                if t > 0 {
                                    assert(rpath[t] == gpath[m - t]);
                                }
                            }
                            assert forall|t: int| 0 <= t < rpath.len() implies self.ends@[#[trigger] rpath[t]].1 == self.ends@[rpath[(t + 1) % rpath.len() as int]].0 by {
                                if t == 0 {
                                    assert(rpath[1] == gpath[m - 1]);
                                    vstd::arithmetic::div_mod::lemma_small_mod(1, rpath.len());
                                    assert((t + 1) % rpath.len() as int == 1);
                                } else if t < m {
                                    assert(rpath[t] == gpath[m - t]);
                                    assert(rpath[t + 1] == gpath[m - t - 1]);
                                    vstd::arithmetic::div_mod::lemma_small_mod((t + 1) as nat, rpath.len());
                                    assert((t + 1) % rpath.len() as int == t + 1);
                                    assert(self.ends@[gpath[(m - t - 1) + 1]].1 == self.ends@[gpath[m - t - 1]].0);
                                } else {
                                    assert(rpath[t] == gpath[0]);
                                    vstd::arithmetic::div_mod::lemma_mod_self_0(rpath.len() as int);
                                    assert((t + 1) % rpath.len() as int == 0);
                                }
                            }
                            assert(is_cycle(self.ends@, rpath));
                            assert forall|t: int| 0 <= t < rpath.len() implies membership@[self.ends@[#[trigger] rpath[t]].0 as int] == component by {
                                if t > 0 {
                                    assert(rpath[t] == gpath[m - t]);
                                    assert(reached@[self.ends@[gpath[m - t]].0 as int]);
                                }
                            }
                        }
                        return r;
                    }
                    let ghost q0 = queue@;
                    queue.push(next);
                    proof {
                        assert(queue@[q0.len() as int] == next);
                        assert forall|w: int| 0 <= w < n && reached@[w] implies exists|kk: int| 0 <= kk < queue@.len() && #[trigger] queue@[kk] == w by {
                            if w == next {
                                assert(queue@[q0.len() as int] == w);
                            } else {
                                let kk = choose|kk: int| 0 <= kk < q0.len() && #[trigger] q0[kk] == w;
                                assert(queue@[kk] == w);
                            }
                        }
                    }
                }
                k += 1;
            }
            proof {
                assert forall|kk: int| 0 <= kk < head implies #[trigger] expanded(self.outgoing@[queue@[kk] as int]@, membership@, component, reached@) by {
                    if kk < head - 1 {
                        assert(queue@[kk] == qb[kk]);
                        assert(expanded(self.outgoing@[qb[kk] as int]@, membership@, component, reached_before));
                    } else {
                        assert(queue@[kk] == node);
                    }
                }
            }
        }
        proof {
            assert(closed_within(self.ends@, membership@, component, reached@)) by {
                assert forall|i: int|
                    0 <= i < self.ends@.len() && reached@[self.ends@[i].0 as int] && membership@[self.ends@[i].1 as int] == component implies reached@[
                    #[trigger] self.ends@[i].1 as int] by {
                    let u = self.ends@[i].0 as int;
                    let kk = choose|kk: int| 0 <= kk < queue@.len() && #[trigger] queue@[kk] == u;
                    assert(expanded(self.outgoing@[u]@, membership@, component, reached@));
                    assert(self.outgoing@[u]@.contains((self.ends@[i].1, self.edges@[i].id)));
                    let q = choose|q: int| 0 <= q < self.outgoing@[u]@.len() && self.outgoing@[u]@[q] == (self.ends@[i].1, self.edges@[i].id);
                    assert(self.outgoing@[u]@[q].0 == self.ends@[i].1);
                }
            }
            assert(!exists|path: Seq<int>| walk_within(self.ends@, membership@, component, path, self.ends@[first_i].1 as int, start as int)) by {
                if exists|path: Seq<int>| walk_within(self.ends@, membership@, component, path, self.ends@[first_i].1 as int, start as int) {
                    let path = choose|path: Seq<int>| walk_within(self.ends@, membership@, component, path, self.ends@[first_i].1 as int, start as int);
                    lemma_walk_stays(self.ends@, membership@, component, reached@, path, target as int, start as int, path.len() - 1);
                }
            }
        }
        Vec::new()
    }
}



/// Two lists of edges ascending by identity with the same elements are equal.
pub proof fn lemma_edges_sorted_unique(a: Seq<GraphSnapshotEdge>, b: Seq<GraphSnapshotEdge>)
    requires
        sorted_ids(snapshot_edge_ids(a)),
        sorted_ids(snapshot_edge_ids(b)),
        forall|x: GraphSnapshotEdge| a.contains(x) <==> b.contains(x),
    ensures
        a == b,
    decreases a.len(),
{
    if a.len() == 0 {
        if b.len() > 0 {
            assert(b.contains(b[0]));
        }
        assert(b =~= a);
    } else {
        assert(a.contains(a[0]));
        let j = choose|j: int| 0 <= j < b.len() && b[j] == a[0];
        assert(b.contains(b[0]));
        let k = choose|k: int| 0 <= k < a.len() && a[k] == b[0];
        if j > 0 {
            assert(id_lt(snapshot_edge_ids(b)[0], snapshot_edge_ids(b)[j]));
            if k > 0 {
                assert(id_lt(snapshot_edge_ids(a)[0], snapshot_edge_ids(a)[k]));
            }
        }
        assert(a[0] == b[0]);
        let a1 = a.subrange(1, a.len() as int);
        let b1 = b.subrange(1, b.len() as int);
        assert forall|x: GraphSnapshotEdge| a1.contains(x) <==> b1.contains(x) by {
            if a1.contains(x) {
                let i = choose|i: int| 0 <= i < a1.len() && a1[i] == x;
                assert(a[i + 1] == x);
                assert(id_lt(snapshot_edge_ids(a)[0], snapshot_edge_ids(a)[i + 1]));
                assert(a.contains(x));
                let m = choose|m: int| 0 <= m < b.len() && b[m] == x;
                assert(m != 0);
                assert(b1[m - 1] == x);
            }
            if b1.contains(x) {
                let i = choose|i: int| 0 <= i < b1.len() && b1[i] == x;
                assert(b[i + 1] == x);
                assert(id_lt(snapshot_edge_ids(b)[0], snapshot_edge_ids(b)[i + 1]));
                assert(b.contains(x));
                let m = choose|m: int| 0 <= m < a.len() && a[m] == x;
                assert(m != 0);
                assert(a1[m - 1] == x);
            }
        }
        assert(sorted_ids(snapshot_edge_ids(a1))) by {
            assert forall|p: int, q: int| 0 <= p < q < a1.len() implies id_lt(snapshot_edge_ids(a1)[p], snapshot_edge_ids(a1)[q]) by {
                assert(id_lt(snapshot_edge_ids(a)[p + 1], snapshot_edge_ids(a)[q + 1]));
            }
        }
        assert(sorted_ids(snapshot_edge_ids(b1))) by {
            assert forall|p: int, q: int| 0 <= p < q < b1.len() implies id_lt(snapshot_edge_ids(b1)[p], snapshot_edge_ids(b1)[q]) by {
                assert(id_lt(snapshot_edge_ids(b)[p + 1], snapshot_edge_ids(b)[q + 1]));
            }
        }
        lemma_edges_sorted_unique(a1, b1);
        assert(a =~= seq![a[0]] + a1);
        assert(b =~= seq![b[0]] + b1);
    }
}

/// The scoped edges of a scope are determined by the snapshot and the scope.
pub proof fn lemma_scoped_unique(snapshot: Seq<GraphSnapshotEdge>, scope: GraphScope, a: Seq<GraphSnapshotEdge>, b: Seq<GraphSnapshotEdge>)
    requires
        scoped_edges_ok(snapshot, scope, a),
        scoped_edges_ok(snapshot, scope, b),
    ensures
        a == b,
{
    match scope {
        GraphScope::AllVisible => {},
        GraphScope::Selected(_) => {
            lemma_edges_sorted_unique(a, b);
        },
    }
}


/// A component is cyclic when it has two or more nodes, or a scoped self-loop on its node.
pub open spec fn cyclic_nodes(edges: Seq<GraphSnapshotEdge>, c: Seq<GraphNodeId>) -> bool {
    c.len() > 1 || exists|i: int| 0 <= i < edges.len() && (#[trigger] edges[i]).source == c[0] && edges[i].target == c[0]
}

pub open spec fn component_views(c: Seq<Vec<GraphNodeId>>) -> Seq<Seq<GraphNodeId>> {
    c.map_values(|v: Vec<GraphNodeId>| v@)
}

pub open spec fn cyclic_views(c: Seq<CyclicComponent>) -> Seq<Seq<GraphNodeId>> {
    c.map_values(|v: CyclicComponent| v.nodes@)
}

/// The report's components partition the snapshot's nodes: each is nonempty and
/// ascending, they are ordered by their smallest node, and every snapshot node lies
/// in exactly one of them.
pub open spec fn partition_ok(nodes: Seq<GraphNodeId>, comps: Seq<Seq<GraphNodeId>>) -> bool {
    &&& forall|c: int| 0 <= c < comps.len() ==> (#[trigger] comps[c]).len() > 0
    &&& forall|c: int| 0 <= c < comps.len() ==> sorted_ids(snapshot_node_ids(#[trigger] comps[c]))
    &&& forall|c: int, d: int| 0 <= c < d < comps.len() ==> id_lt((#[trigger] comps[c])[0].spec_id(), (#[trigger] comps[d])[0].spec_id())
    &&& forall|c: int, x: GraphNodeId| 0 <= c < comps.len() && #[trigger] comps[c].contains(x) ==> nodes.contains(x)
    &&& forall|x: GraphNodeId| #[trigger] nodes.contains(x) ==> exists|c: int| 0 <= c < comps.len() && #[trigger] comps[c].contains(x)
    &&& forall|c: int, d: int, x: GraphNodeId| 0 <= c < comps.len() && 0 <= d < comps.len() && #[trigger] comps[c].contains(x)
        && #[trigger] comps[d].contains(x) ==> c == d
}

/// `comps` lists the strongly connected components of `edges`: a partition of
/// `nodes` ordered as `partition_ok` says, where two nodes share a component exactly
/// when each reaches the other.
pub open spec fn scc_partition(nodes: Seq<GraphNodeId>, edges: Seq<GraphSnapshotEdge>, comps: Seq<Seq<GraphNodeId>>) -> bool {
    &&& partition_ok(nodes, comps)
    &&& forall|c: int, u: GraphNodeId, v: GraphNodeId| 0 <= c < comps.len() && #[trigger] comps[c].contains(u) && #[trigger] comps[c].contains(v)
        && u != v ==> exists|p: Seq<int>| #[trigger] edge_walk(edges, p, u, v)
    &&& forall|c: int, p1: Seq<int>, p2: Seq<int>, u: GraphNodeId, v: GraphNodeId|
        0 <= c < comps.len() && #[trigger] comps[c].contains(u) && #[trigger] edge_walk(edges, p1, u, v)
            && #[trigger] edge_walk(edges, p2, v, u) ==> comps[c].contains(v)
}

/// A witness is empty or a directed cycle of scoped edges through nodes of `c`.
pub open spec fn witness_ok(edges: Seq<GraphSnapshotEdge>, c: Seq<GraphNodeId>, w: Seq<GraphEdgeId>) -> bool {
    w.len() == 0 || exists|path: Seq<int>| #[trigger] edge_cycle(edges, path) && path_ids(edges, path) == w
        && forall|k: int| 0 <= k < path.len() ==> c.contains(edges[#[trigger] path[k]].source)
}

/// Identities of the scoped self-loops, in scoped order.
pub open spec fn self_loop_ids(edges: Seq<GraphSnapshotEdge>) -> Seq<GraphEdgeId> {
    edges.filter(|e: GraphSnapshotEdge| e.source == e.target).map_values(|e: GraphSnapshotEdge| e.id)
}

/// `path` (indices into `edges`) is a directed cycle of snapshot edges.
pub open spec fn edge_cycle(edges: Seq<GraphSnapshotEdge>, path: Seq<int>) -> bool {
    &&& path.len() > 0
    &&& forall|k: int| 0 <= k < path.len() ==> 0 <= #[trigger] path[k] < edges.len()
    &&& forall|k: int| 0 <= k < path.len() ==> edges[#[trigger] path[k]].target == edges[path[(k + 1) % path.len() as int]].source
}

/// A directed cycle none of whose edges is named in `removed`.
pub open spec fn cycle_avoiding(edges: Seq<GraphSnapshotEdge>, removed: Seq<GraphEdgeId>, path: Seq<int>) -> bool {
    edge_cycle(edges, path) && forall|k: int| 0 <= k < path.len() ==> !removed.contains(edges[#[trigger] path[k]].id)
}

/// A deletion names a scoped edge: a self-loop (and says so), or an edge whose
/// source identity is above its target's.
pub open spec fn deletion_ok(edges: Seq<GraphSnapshotEdge>, d: RepairDeletion) -> bool {
    exists|i: int| 0 <= i < edges.len() && #[trigger] edges[i].id == d.edge
        && (d.reason == RepairReason::SelfLoop <==> edges[i].source == edges[i].target)
        && (edges[i].source == edges[i].target || id_lt(edges[i].target.spec_id(), edges[i].source.spec_id()))
}

/// Each deletion names an edge that comes after the previous deletion's among `edges`.
pub open spec fn in_edge_order(edges: Seq<GraphSnapshotEdge>, dels: Seq<RepairDeletion>) -> bool {
    forall|k1: int, k2: int| #![trigger dels[k1], dels[k2]] 0 <= k1 < k2 < dels.len() ==> exists|i1: int, i2: int|
        #![trigger edge_at(edges, i1, dels[k1].edge), edge_at(edges, i2, dels[k2].edge)]
        i1 < i2 && edge_at(edges, i1, dels[k1].edge) && edge_at(edges, i2, dels[k2].edge)
}

/// Position `i` of `edges` holds the edge `id`.
pub open spec fn edge_at(edges: Seq<GraphSnapshotEdge>, i: int, id: GraphEdgeId) -> bool {
    0 <= i < edges.len() && edges[i].id == id
}

/// Deletions whose edges sit at increasing positions of `edges` come in edge order.
proof fn lemma_in_edge_order(edges: Seq<GraphSnapshotEdge>, dels: Seq<RepairDeletion>, owner: Seq<int>)
    requires
        owner.len() == dels.len(),
        forall|k: int| 0 <= k < owner.len() ==> 0 <= #[trigger] owner[k] < edges.len() && edges[owner[k]].id == dels[k].edge,
        forall|k1: int, k2: int| 0 <= k1 < k2 < owner.len() ==> #[trigger] owner[k1] < #[trigger] owner[k2],
    ensures
        in_edge_order(edges, dels),
{
    assert forall|k1: int, k2: int| #![trigger dels[k1], dels[k2]] 0 <= k1 < k2 < dels.len() implies exists|i1: int, i2: int|
        #![trigger edge_at(edges, i1, dels[k1].edge), edge_at(edges, i2, dels[k2].edge)]
        i1 < i2 && edge_at(edges, i1, dels[k1].edge) && edge_at(edges, i2, dels[k2].edge) by {
        let i1 = owner[k1];
        let i2 = owner[k2];
        assert(owner[k1] < owner[k2]);
        assert(edge_at(edges, i1, dels[k1].edge));
        assert(edge_at(edges, i2, dels[k2].edge));
    }
}

pub open spec fn deletion_ids(d: Seq<RepairDeletion>) -> Seq<GraphEdgeId> {
    d.map_values(|x: RepairDeletion| x.edge)
}

/// Lexicographic order on `(rank, position)`.
pub open spec fn key_lt(rank: Seq<int>, a: int, b: int) -> bool {
    rank[a] < rank[b] || (rank[a] == rank[b] && a < b)
}

/// Along a walk whose every step raises the key, the key of its start is below
/// the key of every later node; so no such walk closes a cycle.
pub proof fn lemma_rising_walk(ends: Seq<(usize, usize)>, rank: Seq<int>, path: Seq<int>, k: int)
    requires
        0 <= k < path.len(),
        forall|q: int| 0 <= q < path.len() ==> 0 <= #[trigger] path[q] < ends.len(),
        forall|q: int| 0 <= q < path.len() - 1 ==> ends[#[trigger] path[q]].1 == ends[path[q + 1]].0,
        forall|q: int| 0 <= q < path.len() ==> key_lt(rank, ends[#[trigger] path[q]].0 as int, ends[path[q]].1 as int),
    ensures
        key_lt(rank, ends[path[0]].0 as int, ends[path[k]].1 as int),
    decreases k,
{
    if k > 0 {
        lemma_rising_walk(ends, rank, path, k - 1);
        assert(ends[path[k - 1]].1 == ends[path[k]].0);
        assert(key_lt(rank, ends[path[k]].0 as int, ends[path[k]].1 as int));
    }
}

/// Equal nodes of a strictly ascending node list sit at equal positions.
pub proof fn lemma_nodes_injective(nodes: Seq<GraphNodeId>, x: int, y: int)
    requires
        sorted_ids(snapshot_node_ids(nodes)),
        0 <= x < nodes.len(),
        0 <= y < nodes.len(),
        nodes[x] == nodes[y],
    ensures
        x == y,
{
    if x < y {
        assert(id_lt(snapshot_node_ids(nodes)[x], snapshot_node_ids(nodes)[y]));
    } else if y < x {
        assert(id_lt(snapshot_node_ids(nodes)[y], snapshot_node_ids(nodes)[x]));
    }
}



/// The node identities at the given positions.
fn nodes_at(nodes: &Vec<GraphNodeId>, positions: &Vec<usize>) -> (r: Vec<GraphNodeId>)
    requires
        forall|k: int| 0 <= k < positions@.len() ==> (#[trigger] positions@[k]) < nodes@.len(),
    ensures
        r@.len() == positions@.len(),
        forall|k: int| 0 <= k < r@.len() ==> #[trigger] r@[k] == nodes@[positions@[k] as int],
{
    let mut r: Vec<GraphNodeId> = Vec::new();
    let mut k: usize = 0;
    while k < positions.len()
        invariant
            forall|q: int| 0 <= q < positions@.len() ==> (#[trigger] positions@[q]) < nodes@.len(),
            k <= positions@.len(),
            r@.len() == k,
            forall|q: int| 0 <= q < k ==> #[trigger] r@[q] == nodes@[positions@[q] as int],
        decreases positions@.len() - k,
    {
        r.push(nodes[positions[k]]);
        k += 1;
    }
    r
}

fn copy_nodes(v: &Vec<GraphNodeId>) -> (r: Vec<GraphNodeId>)
    ensures
        r@ == v@,
{
    let mut r: Vec<GraphNodeId> = Vec::new();
    let mut i: usize = 0;
    while i < v.len()
        invariant
            i <= v@.len(),
            r@ == v@.take(i as int),
        decreases v@.len() - i,
    {
        r.push(v[i]);
        i += 1;
        proof { assert(r@ =~= v@.take(i as int)); }
    }
    proof { assert(v@.take(i as int) =~= v@); }
    r
}

/// A walk along scoped edges never lowers the rank.
#[verifier::rlimit(50)]
proof fn lemma_walk_rank(ends: Seq<(usize, usize)>, rank: Seq<int>, path: Seq<int>, k: int)
    requires
        0 <= k < path.len(),
        forall|q: int| 0 <= q < path.len() ==> 0 <= #[trigger] path[q] < ends.len(),
        forall|q: int| 0 <= q < path.len() - 1 ==> ends[#[trigger] path[q]].1 == ends[path[q + 1]].0,
        forall|i: int| #![trigger ends[i]] 0 <= i < ends.len() ==> rank[ends[i].0 as int] <= rank[ends[i].1 as int],
    ensures
        rank[ends[path[0]].0 as int] <= rank[ends[path[k]].0 as int],
    decreases k,
{
    if k > 0 {
        lemma_walk_rank(ends, rank, path, k - 1);
        assert(ends[path[k - 1]].1 == ends[path[k]].0);
        assert(rank[ends[path[k - 1]].0 as int] <= rank[ends[path[k - 1]].1 as int]);
    } else {
        lemma_walk_rank_tail(ends, rank, path, 0);
    }
}

proof fn lemma_walk_rank_tail(ends: Seq<(usize, usize)>, rank: Seq<int>, path: Seq<int>, k: int)
    requires
        0 <= k < path.len(),
        forall|q: int| 0 <= q < path.len() ==> 0 <= #[trigger] path[q] < ends.len(),
        forall|q: int| 0 <= q < path.len() - 1 ==> ends[#[trigger] path[q]].1 == ends[path[q + 1]].0,
        forall|i: int| #![trigger ends[i]] 0 <= i < ends.len() ==> rank[ends[i].0 as int] <= rank[ends[i].1 as int],
    ensures
        rank[ends[path[k]].1 as int] <= rank[ends[path[path.len() - 1]].1 as int],
    decreases path.len() - k,
{
    if k < path.len() - 1 {
        lemma_walk_rank_tail(ends, rank, path, k + 1);
        assert(ends[path[k]].1 == ends[path[k + 1]].0);
        assert(rank[ends[path[k + 1]].0 as int] <= rank[ends[path[k + 1]].1 as int]);
    }
}

impl IndexedGraph {
    /// The component at position `c` is cyclic: it has two nodes, or a self-loop.
    fn is_cyclic(&self, Ghost(nodes): Ghost<Seq<GraphNodeId>>, members: &Vec<usize>) -> (r: bool)
        requires
            self.wf(nodes),
            sorted_ids(snapshot_node_ids(nodes)),
            members@.len() > 0,
            forall|k: int| 0 <= k < members@.len() ==> (#[trigger] members@[k]) < nodes.len(),
        ensures
            r == (members@.len() > 1 || exists|i: int| 0 <= i < self.edges@.len()
                && (#[trigger] self.edges@[i]).source == nodes[members@[0] as int] && self.edges@[i].target == nodes[members@[0] as int]),
    {
        if members.len() > 1 {
            return true;
        }
        let v = members[0];
        let mut k: usize = 0;
        while k < self.outgoing[v].len()
            invariant
                self.wf(nodes),
                v < nodes.len(),
                members@.len() == 1,
                members@[0] == v,
                k <= self.outgoing@[v as int]@.len(),
                forall|q: int| 0 <= q < k ==> (#[trigger] self.outgoing@[v as int]@[q]).0 != v,
            decreases self.outgoing@[v as int]@.len() - k,
        {
            if self.outgoing[v][k].0 == v {
                proof {
                    let i = self.out_owner@[v as int][k as int];
                    assert(self.ends@[i] == (v, v));
                    assert(self.edges@[i].source == nodes[v as int]);
                    assert(self.edges@[i].target == nodes[v as int]);
                }
                return true;
            }
            k += 1;
        }
        proof {
            if exists|i: int| 0 <= i < self.edges@.len()
                && (#[trigger] self.edges@[i]).source == nodes[v as int] && self.edges@[i].target == nodes[v as int] {
                let i = choose|i: int| 0 <= i < self.edges@.len()
                    && (#[trigger] self.edges@[i]).source == nodes[v as int] && self.edges@[i].target == nodes[v as int];
                assert(self.ends@[i].0 < nodes.len());
                lemma_nodes_injective(nodes, self.ends@[i].0 as int, v as int);
                lemma_nodes_injective(nodes, self.ends@[i].1 as int, v as int);
                assert(self.outgoing@[v as int]@.contains((v, self.edges@[i].id)));
                let q = choose|q: int| 0 <= q < self.outgoing@[v as int]@.len() && self.outgoing@[v as int]@[q] == (v, self.edges@[i].id);
                assert(self.outgoing@[v as int]@[q].0 == v);
            }
        }
        false
    }
}


/// The report's components, in node identities, partition the snapshot's nodes.
proof fn lemma_partition(nodes: Seq<GraphNodeId>, ends: Seq<(usize, usize)>, comps: Seq<Seq<usize>>, membership: Seq<usize>, rank: Seq<int>, ids: Seq<Seq<GraphNodeId>>)
    requires
        nodes.len() <= usize::MAX,
        sorted_ids(snapshot_node_ids(nodes)),
        components_ok(nodes.len(), ends, comps, membership, rank),
        ids.len() == comps.len(),
        forall|c: int| 0 <= c < comps.len() ==> (#[trigger] ids[c]).len() == comps[c].len(),
        forall|c: int, k: int| 0 <= c < comps.len() && 0 <= k < comps[c].len() ==> (#[trigger] ids[c][k]) == nodes[comps[c][k] as int],
    ensures
        partition_ok(nodes, ids),
{
    assert forall|c: int, k: int| 0 <= c < comps.len() && 0 <= k < comps[c].len() implies (#[trigger] comps[c][k]) < nodes.len() by {
        assert(comps[c].contains(comps[c][k]));
    }
    assert forall|c: int| 0 <= c < ids.len() implies sorted_ids(snapshot_node_ids(#[trigger] ids[c])) by {
        assert forall|a: int, b: int| 0 <= a < b < ids[c].len() implies id_lt(snapshot_node_ids(ids[c])[a], snapshot_node_ids(ids[c])[b]) by {
            assert(comps[c][a] < comps[c][b]);
            assert(id_lt(snapshot_node_ids(nodes)[comps[c][a] as int], snapshot_node_ids(nodes)[comps[c][b] as int]));
        }
    }
    assert forall|c: int, d: int| 0 <= c < d < ids.len() implies id_lt((#[trigger] ids[c])[0].spec_id(), (#[trigger] ids[d])[0].spec_id()) by {
        assert(comps[c][0] < comps[d][0]);
        assert(id_lt(snapshot_node_ids(nodes)[comps[c][0] as int], snapshot_node_ids(nodes)[comps[d][0] as int]));
    }
    assert forall|c: int, x: GraphNodeId| 0 <= c < ids.len() && #[trigger] ids[c].contains(x) implies nodes.contains(x) by {
        let k = choose|k: int| 0 <= k < ids[c].len() && ids[c][k] == x;
        assert(nodes[comps[c][k] as int] == x);
    }
    assert forall|x: GraphNodeId| #[trigger] nodes.contains(x) implies exists|c: int| 0 <= c < ids.len() && #[trigger] ids[c].contains(x) by {
        let v = choose|v: int| 0 <= v < nodes.len() && nodes[v] == x;
        let c = membership[v] as int;
        let vu = v as usize;
        assert(vu as int == v);
        assert(comps[c].contains(vu));
        let k = choose|k: int| 0 <= k < comps[c].len() && comps[c][k] == v as usize;
        assert(ids[c][k] == x);
        assert(ids[c].contains(x));
    }
    assert forall|c: int, d: int, x: GraphNodeId| 0 <= c < ids.len() && 0 <= d < ids.len() && #[trigger] ids[c].contains(x)
        && #[trigger] ids[d].contains(x) implies c == d by {
        let a = choose|a: int| 0 <= a < ids[c].len() && ids[c][a] == x;
        let b = choose|b: int| 0 <= b < ids[d].len() && ids[d][b] == x;
        lemma_nodes_injective(nodes, comps[c][a] as int, comps[d][b] as int);
        assert(comps[c].contains(comps[c][a]));
        assert(comps[d].contains(comps[d][b]));
    }
}


/// Ranks never fall from a node to one it reaches.
proof fn lemma_reach_rank(ends: Seq<(usize, usize)>, rank: Seq<int>, a: int, b: int)
    requires
        reaches(ends, a, b),
        forall|i: int| #![trigger ends[i]] 0 <= i < ends.len() ==> rank[ends[i].0 as int] <= rank[ends[i].1 as int],
    ensures
        rank[a] <= rank[b],
{
    if a != b {
        let p = choose|p: Seq<int>| #[trigger] index_walk(ends, p, a, b);
        lemma_rank_walk(ends, rank, p, p.len() - 1);
    }
}

/// Nodes that reach each other share their component.
proof fn lemma_mutual_member(n: nat, ends: Seq<(usize, usize)>, comps: Seq<Seq<usize>>, membership: Seq<usize>, rank: Seq<int>, a: int, b: int)
    requires
        components_ok(n, ends, comps, membership, rank),
        0 <= a < n,
        0 <= b < n,
        mutual(ends, a, b),
    ensures
        membership[a] == membership[b],
{
    lemma_reach_rank(ends, rank, a, b);
    lemma_reach_rank(ends, rank, b, a);
}

/// A node on a walk is reached from its start and reaches its end.
proof fn lemma_walk_split(ends: Seq<(usize, usize)>, q: Seq<int>, a: int, b: int, k: int)
    requires
        index_walk(ends, q, a, b),
        0 <= k < q.len(),
    ensures
        reaches(ends, a, ends[q[k]].1 as int),
        reaches(ends, ends[q[k]].1 as int, b),
{
    let x = ends[q[k]].1 as int;
    let pre = q.subrange(0, k + 1);
    assert(index_walk(ends, pre, a, x)) by {
        assert forall|j: int| 0 <= j < pre.len() - 1 implies ends[#[trigger] pre[j]].1 == ends[pre[j + 1]].0 by {
            assert(pre[j] == q[j] && pre[j + 1] == q[j + 1]);
        }
        assert(pre[0] == q[0]);
    }
    if k < q.len() - 1 {
        let suf = q.subrange(k + 1, q.len() as int);
        assert(index_walk(ends, suf, x, b)) by {
            assert forall|j: int| 0 <= j < suf.len() - 1 implies ends[#[trigger] suf[j]].1 == ends[suf[j + 1]].0 by {
                assert(suf[j] == q[k + 1 + j] && suf[j + 1] == q[k + 2 + j]);
            }
            assert(suf[0] == q[k + 1]);
            assert(suf[suf.len() - 1] == q[q.len() - 1]);
        }
    }
}

/// In a component of two or more nodes, or one with a self-loop, the search for
/// a witness succeeds: its smallest node has an edge into the component, and every
/// such edge leads back to it inside the component.
proof fn lemma_witness_found(
    g: &IndexedGraph,
    nodes: Seq<GraphNodeId>,
    comps: Seq<Seq<usize>>,
    membership: Seq<usize>,
    rank: Seq<int>,
    c: int,
)
    requires
        g.wf(nodes),
        sorted_ids(snapshot_node_ids(nodes)),
        components_ok(nodes.len(), g.ends@, comps, membership, rank),
        0 <= c < comps.len(),
        comps[c].len() > 1 || exists|i: int| 0 <= i < g.edges@.len() && (#[trigger] g.edges@[i]).source == nodes[comps[c][0] as int]
            && g.edges@[i].target == nodes[comps[c][0] as int],
    ensures
        ({
            let ends = g.ends@;
            let start = comps[c][0] as int;
            &&& membership[start] == c
            &&& exists|i: int| 0 <= i < ends.len() && ends[i].0 == start && membership[#[trigger] ends[i].1 as int] == c
            &&& forall|i: int| 0 <= i < ends.len() && ends[i].0 == start && membership[#[trigger] ends[i].1 as int] == c ==>
                exists|path: Seq<int>| #[trigger] walk_within(ends, membership, c as usize, path, ends[i].1 as int, start)
        }),
{
    let ends = g.ends@;
    let n = nodes.len();
    let start = comps[c][0] as int;
    assert(comps[c].contains(comps[c][0]));
    assert(membership[start] == c);
    if comps[c].len() > 1 {
        let v = comps[c][1] as int;
        assert(comps[c].contains(comps[c][1]));
        assert(comps[c][0] < comps[c][1]);
        assert(membership[v] == c);
        assert(reaches(ends, start, v));
        let p = choose|p: Seq<int>| #[trigger] index_walk(ends, p, start, v);
        let i = p[0];
        let t = ends[i].1 as int;
        assert(ends[i] == ends[p[0]]);
        lemma_walk_split(ends, p, start, v, 0);
        assert(reaches(ends, v, start));
        lemma_reach_trans(ends, t, v, start);
        assert(t < n);
        lemma_mutual_member(n, ends, comps, membership, rank, start, t);
        assert(ends[i].0 == start && membership[ends[i].1 as int] == c);
    } else {
        let i = choose|i: int| 0 <= i < g.edges@.len() && (#[trigger] g.edges@[i]).source == nodes[comps[c][0] as int]
            && g.edges@[i].target == nodes[comps[c][0] as int];
        assert(comps[c].contains(comps[c][0]));
        lemma_nodes_injective(nodes, ends[i].0 as int, start);
        lemma_nodes_injective(nodes, ends[i].1 as int, start);
        assert(ends[i].0 == start && membership[ends[i].1 as int] == c);
    }
    assert forall|i: int| 0 <= i < ends.len() && ends[i].0 == start && membership[#[trigger] ends[i].1 as int] == c implies
        exists|path: Seq<int>| #[trigger] walk_within(ends, membership, c as usize, path, ends[i].1 as int, start) by {
        let t = ends[i].1 as int;
        if t == start {
            assert(walk_within(ends, membership, c as usize, seq![i], t, start));
        } else {
            assert(t < n);
            assert(reaches(ends, t, start));
            let q = choose|q: Seq<int>| #[trigger] index_walk(ends, q, t, start);
            assert(reaches(ends, start, t)) by {
                lemma_reach_append(ends, start, start, i);
            }
            assert forall|k: int| 0 <= k < q.len() implies membership[ends[#[trigger] q[k]].1 as int] == c by {
                lemma_walk_split(ends, q, t, start, k);
                let x = ends[q[k]].1 as int;
                lemma_reach_trans(ends, start, t, x);
                assert(x < n);
                lemma_mutual_member(n, ends, comps, membership, rank, start, x);
            }
            assert(walk_within(ends, membership, c as usize, q, t, start));
        }
    }
}

/// A walk of index edges is a walk of scoped edges between the nodes at its ends.
proof fn lemma_index_edge_walk(g: &IndexedGraph, nodes: Seq<GraphNodeId>, p: Seq<int>, a: int, b: int)
    requires
        g.wf(nodes),
        index_walk(g.ends@, p, a, b),
    ensures
        edge_walk(g.edges@, p, nodes[a], nodes[b]),
{
    assert forall|k: int| 0 <= k < p.len() - 1 implies g.edges@[#[trigger] p[k]].target == g.edges@[p[k + 1]].source by {
        assert(g.ends@[p[k]].1 == g.ends@[p[k + 1]].0);
    }
}

/// A directed cycle of scoped edges lies inside one component, which is cyclic.
/// A cycle of snapshot edges is a cycle of node positions.
proof fn lemma_cycle_ends(g: &IndexedGraph, nodes: Seq<GraphNodeId>, path: Seq<int>)
    requires
        g.wf(nodes),
        sorted_ids(snapshot_node_ids(nodes)),
        edge_cycle(g.edges@, path),
    ensures
        forall|q: int| 0 <= q < path.len() ==> 0 <= #[trigger] path[q] < g.ends@.len(),
        forall|q: int| 0 <= q < path.len() - 1 ==> g.ends@[#[trigger] path[q]].1 == g.ends@[path[q + 1]].0,
        g.ends@[path[path.len() - 1]].1 == g.ends@[path[0]].0,
{
    let ends = g.ends@;
    let m = path.len() as int;
    assert forall|q: int| 0 <= q < m - 1 implies ends[#[trigger] path[q]].1 == ends[path[q + 1]].0 by {
        vstd::arithmetic::div_mod::lemma_small_mod((q + 1) as nat, m as nat);
        lemma_nodes_injective(nodes, ends[path[q]].1 as int, ends[path[q + 1]].0 as int);
    }
    vstd::arithmetic::div_mod::lemma_mod_self_0(m);
    lemma_nodes_injective(nodes, ends[path[m - 1]].1 as int, ends[path[0]].0 as int);
}

/// Every node of a closed walk has the rank of its start.
proof fn lemma_cycle_rank(ends: Seq<(usize, usize)>, rank: Seq<int>, path: Seq<int>, k: int)
    requires
        0 <= k < path.len(),
        forall|q: int| 0 <= q < path.len() ==> 0 <= #[trigger] path[q] < ends.len(),
        forall|q: int| 0 <= q < path.len() - 1 ==> ends[#[trigger] path[q]].1 == ends[path[q + 1]].0,
        ends[path[path.len() - 1]].1 == ends[path[0]].0,
        forall|i: int| #![trigger ends[i]] 0 <= i < ends.len() ==> rank[ends[i].0 as int] <= rank[ends[i].1 as int],
    ensures
        rank[ends[path[k]].0 as int] == rank[ends[path[0]].0 as int],
        rank[ends[path[k]].1 as int] == rank[ends[path[0]].0 as int],
{
    lemma_walk_rank(ends, rank, path, k);
    lemma_walk_rank_tail(ends, rank, path, k);
    assert(rank[ends[path[k]].0 as int] <= rank[ends[path[k]].1 as int]);
}

/// Two nodes of equal rank share a component, which holds both.
proof fn lemma_same_component(n: nat, comps: Seq<Seq<usize>>, membership: Seq<usize>, rank: Seq<int>, s: usize, t: usize)
    requires
        membership.len() == n,
        rank.len() == n,
        s < n,
        t < n,
        rank[s as int] == rank[t as int],
        forall|v: int| 0 <= v < n ==> (#[trigger] membership[v]) < comps.len(),
        forall|c: int, x: usize| 0 <= c < comps.len() ==> (#[trigger] comps[c].contains(x) <==> (x < n && membership[x as int] == c)),
        forall|u: int, v: int| 0 <= u < n && 0 <= v < n ==> ((#[trigger] membership[u] == #[trigger] membership[v]) <==> rank[u] == rank[v]),
    ensures
        membership[s as int] == membership[t as int],
        0 <= membership[s as int] < comps.len(),
        comps[membership[s as int] as int].contains(s),
        comps[membership[s as int] as int].contains(t),
{
    assert(membership[s as int] == membership[t as int]);
    let c = membership[s as int] as int;
    assert(comps[c].contains(s) <==> (s < n && membership[s as int] == c));
    assert(comps[c].contains(t) <==> (t < n && membership[t as int] == c));
}

/// A directed cycle of scoped edges lies inside one component, which is cyclic.
proof fn lemma_cycle_in_component(
    g: &IndexedGraph,
    nodes: Seq<GraphNodeId>,
    comps: Seq<Seq<usize>>,
    membership: Seq<usize>,
    rank: Seq<int>,
    path: Seq<int>,
) -> (c: int)
    requires
        g.wf(nodes),
        sorted_ids(snapshot_node_ids(nodes)),
        components_ok(nodes.len(), g.ends@, comps, membership, rank),
        edge_cycle(g.edges@, path),
    ensures
        0 <= c < comps.len(),
        comps[c].len() > 1 || exists|i: int| 0 <= i < g.ends@.len() && #[trigger] g.ends@[i] == (comps[c][0], comps[c][0]),
{
    let ends = g.ends@;
    lemma_cycle_ends(g, nodes, path);
    let e = path[0];
    assert(0 <= e < ends.len());
    assert(ends[e].0 < nodes.len() && ends[e].1 < nodes.len());
    lemma_cycle_component_at(ends, nodes.len(), comps, membership, rank, path)
}

/// The first edge of a cycle lies in one component; a single-node component then
/// has that edge as a self-loop.
proof fn lemma_cycle_component_at(
    ends: Seq<(usize, usize)>,
    n: nat,
    comps: Seq<Seq<usize>>,
    membership: Seq<usize>,
    rank: Seq<int>,
    path: Seq<int>,
) -> (c: int)
    requires
        path.len() > 0,
        forall|q: int| 0 <= q < path.len() ==> 0 <= #[trigger] path[q] < ends.len(),
        forall|q: int| 0 <= q < path.len() - 1 ==> ends[#[trigger] path[q]].1 == ends[path[q + 1]].0,
        ends[path[path.len() - 1]].1 == ends[path[0]].0,
        ends[path[0]].0 < n,
        ends[path[0]].1 < n,
        components_ok(n, ends, comps, membership, rank),
    ensures
        0 <= c < comps.len(),
        comps[c].len() > 1 || exists|i: int| 0 <= i < ends.len() && #[trigger] ends[i] == (comps[c][0], comps[c][0]),
{
    lemma_cycle_rank(ends, rank, path, 0);
    let e = path[0];
    let s = ends[e].0;
    let t = ends[e].1;
    lemma_same_component(n, comps, membership, rank, s, t);
    let c = membership[s as int] as int;
    if comps[c].len() <= 1 {
        assert(comps[c][0] == s);
        assert(comps[c][0] == t);
        assert(ends[e] == (comps[c][0], comps[c][0]));
    }
    c
}

/// A witness found inside component `c` is a cycle of snapshot edges through its nodes.
proof fn lemma_witness_ok(
    g: &IndexedGraph,
    nodes: Seq<GraphNodeId>,
    comps: Seq<Seq<usize>>,
    membership: Seq<usize>,
    c: usize,
    ids: Seq<GraphNodeId>,
    witness: Seq<GraphEdgeId>,
)
    requires
        g.wf(nodes),
        0 <= c < comps.len(),
        ids.len() == comps[c as int].len(),
        forall|k: int| 0 <= k < comps[c as int].len() ==> (#[trigger] ids[k]) == nodes[comps[c as int][k] as int],
        forall|x: usize| #[trigger] comps[c as int].contains(x) <==> (x < nodes.len() && membership[x as int] == c),
        witness.len() == 0 || exists|path: Seq<int>| #[trigger] is_cycle(g.ends@, path) && path_ids(g.edges@, path) == witness
            && forall|k: int| 0 <= k < path.len() ==> membership[g.ends@[#[trigger] path[k]].0 as int] == c,
    ensures
        witness_ok(g.edges@, ids, witness),
{
    if witness.len() > 0 {
        let path = choose|path: Seq<int>| #[trigger] is_cycle(g.ends@, path) && path_ids(g.edges@, path) == witness
            && forall|k: int| 0 <= k < path.len() ==> membership[g.ends@[#[trigger] path[k]].0 as int] == c;
        assert forall|k: int| 0 <= k < path.len() implies g.edges@[#[trigger] path[k]].target == g.edges@[path[(k + 1) % path.len() as int]].source by {
            assert(g.ends@[path[k]].1 == g.ends@[path[(k + 1) % path.len() as int]].0);
        }
        assert(edge_cycle(g.edges@, path));
        assert forall|k: int| 0 <= k < path.len() implies ids.contains(g.edges@[#[trigger] path[k]].source) by {
            let v = g.ends@[path[k]].0;
            assert(comps[c as int].contains(v));
            let q = choose|q: int| 0 <= q < comps[c as int].len() && comps[c as int][q] == v;
            assert(ids[q] == nodes[v as int]);
        }
    }
}

/// Cycle analysis of the scoped edges: components (strongly connected components),
/// the cyclic ones with a directed cycle through each, and the self-loops.
#[verifier::rlimit(60)]
pub fn analyze_cycles(snapshot: &GraphSnapshot, scope: &GraphScope) -> (r: Result<CycleReport, GraphRepairError>)
    requires
        snapshot.wf(),
    ensures
        match r {
            Ok(rep) => {
                &&& selection_known(snapshot.spec_edges(), *scope)
                &&& canonical_scope(*scope, rep.scope)
                &&& partition_ok(snapshot.spec_nodes(), component_views(rep.components@))
                &&& forall|edges: Seq<GraphSnapshotEdge>| #[trigger] scoped_edges_ok(snapshot.spec_edges(), *scope, edges) ==> {
                    &&& rep.self_loops@ == self_loop_ids(edges)
                    &&& cyclic_views(rep.cyclic_components@) == component_views(rep.components@).filter(|c: Seq<GraphNodeId>| cyclic_nodes(edges, c))
                    &&& forall|k: int| 0 <= k < rep.cyclic_components@.len() ==>
                        witness_ok(edges, (#[trigger] rep.cyclic_components@[k]).nodes@, rep.cyclic_components@[k].witness@)
                    // Every cyclic component has a nonempty witness.
                    &&& forall|k: int| 0 <= k < rep.cyclic_components@.len() ==> (#[trigger] rep.cyclic_components@[k]).witness@.len() > 0
                    // The components are exactly the strongly connected ones.
                    &&& scc_partition(snapshot.spec_nodes(), edges, component_views(rep.components@))
                    // A directed cycle among the scoped edges makes the report cyclic.
                    &&& forall|path: Seq<int>| #[trigger] edge_cycle(edges, path) ==> rep.cyclic_components@.len() > 0
                    // Nodes that reach each other along scoped edges share a component.
                    &&& forall|c: int, p1: Seq<int>, p2: Seq<int>, u: GraphNodeId, v: GraphNodeId|
                        0 <= c < rep.components@.len() && #[trigger] rep.components@[c]@.contains(u) && #[trigger] edge_walk(edges, p1, u, v)
                            && #[trigger] edge_walk(edges, p2, v, u) ==> rep.components@[c]@.contains(v)
                }
            },
            Err(GraphRepairError::InvalidSelection(x)) => first_unknown(snapshot.spec_edges(), *scope, x),
            Err(GraphRepairError::InvalidPlan) => exists|edges: Seq<GraphSnapshotEdge>| selection_known(snapshot.spec_edges(), *scope)
                && #[trigger] scoped_edges_ok(snapshot.spec_edges(), *scope, edges)
                && exists|i: int| 0 <= i < edges.len() && (!snapshot_node_ids(snapshot.spec_nodes()).contains((#[trigger] edges[i]).source.spec_id())
                    || !snapshot_node_ids(snapshot.spec_nodes()).contains(edges[i].target.spec_id())),
            Err(_) => false,
        },
{
    let g = match IndexedGraph::new(snapshot, scope) {
        Ok(g) => g,
        Err(e) => {
            return Err(e);
        },
    };
    let ghost nodes = snapshot.nodes@;
    let (comps, membership, Ghost(rank)) = g.components(Ghost(nodes));
    let self_loops = self_loops_of(&g.edges);
    let mut components: Vec<Vec<GraphNodeId>> = Vec::new();
    let mut cyclic: Vec<CyclicComponent> = Vec::new();
    let ghost pred = |c: Seq<GraphNodeId>| cyclic_nodes(g.edges@, c);
    let mut c: usize = 0;
    proof {
        reveal(Seq::filter);
        assert(component_views(components@).take(0) =~= Seq::<Seq<GraphNodeId>>::empty());
        assert(cyclic_views(cyclic@) =~= Seq::<Seq<GraphNodeId>>::empty());
    }
    while c < comps.len()
        invariant
            g.wf(nodes),
            nodes == snapshot.nodes@,
            snapshot.wf(),
            pred == (|c: Seq<GraphNodeId>| cyclic_nodes(g.edges@, c)),
            components_ok(nodes.len(), g.ends@, comps_view(comps@), membership@, rank),
            c <= comps@.len(),
            components@.len() == c,
            forall|q: int| 0 <= q < c ==> (#[trigger] components@[q])@.len() == comps@[q]@.len(),
            forall|q: int, k: int| 0 <= q < c && 0 <= k < comps@[q]@.len() ==> (#[trigger] components@[q]@[k]) == nodes[comps@[q]@[k] as int],
            cyclic_views(cyclic@) == component_views(components@).filter(pred),
            forall|k: int| 0 <= k < cyclic@.len() ==> witness_ok(g.edges@, (#[trigger] cyclic@[k]).nodes@, cyclic@[k].witness@),
            forall|k: int| 0 <= k < cyclic@.len() ==> (#[trigger] cyclic@[k]).witness@.len() > 0,
        decreases comps@.len() - c,
    {
        proof {
            assert(comps_view(comps@)[c as int] == comps@[c as int]@);
            assert forall|k: int| 0 <= k < comps@[c as int]@.len() implies (#[trigger] comps@[c as int]@[k]) < nodes.len() by {
                assert(comps_view(comps@)[c as int].contains(comps@[c as int]@[k]));
            }
        }
        let ids = nodes_at(&snapshot.nodes, &comps[c]);
        let ghost cv0 = cyclic_views(cyclic@);
        let ghost comp_v0 = component_views(components@);
        if g.is_cyclic(Ghost(nodes), &comps[c]) {
            let witness = g.witness(Ghost(nodes), c, &comps[c], &membership);
            let entry = CyclicComponent { nodes: copy_nodes(&ids), witness };
            proof {
                lemma_witness_ok(&g, nodes, comps_view(comps@), membership@, c, ids@, entry.witness@);
                assert(comps_view(comps@)[c as int] == comps@[c as int]@);
                lemma_witness_found(&g, nodes, comps_view(comps@), membership@, rank, c as int);
            }
            let ghost cy0 = cyclic@;
            cyclic.push(entry);
            proof {
                assert forall|k: int| 0 <= k < cyclic@.len() implies (#[trigger] cyclic@[k]).witness@.len() > 0 by {
                    if k < cy0.len() { assert(cyclic@[k] == cy0[k]); }
                }
            }
        }
        components.push(ids);
        proof {
            let cv = ids@;
            assert(component_views(components@) =~= comp_v0.push(cv));
            assert(component_views(components@).take(c + 1) =~= component_views(components@));
            comp_v0.lemma_filter_push(cv, pred);
            assert(cv[0] == nodes[comps@[c as int]@[0] as int]);
            if pred(cv) {
                assert(cyclic_views(cyclic@) =~= cv0.push(cv));
            } else {
                assert(cyclic_views(cyclic@) =~= cv0);
            }
            assert forall|k: int| 0 <= k < cyclic@.len() implies witness_ok(g.edges@, (#[trigger] cyclic@[k]).nodes@, cyclic@[k].witness@) by {
            }
            assert forall|q: int, k: int| 0 <= q < c + 1 && 0 <= k < comps@[q]@.len() implies (#[trigger] components@[q]@[k]) == nodes[comps@[q]@[k] as int] by {
            }
        }
        c += 1;
    }
    let report = CycleReport { components, cyclic_components: cyclic, self_loops, scope: g.scope };
    let count = snapshot.nodes.len();
    proof {
        lemma_partition(nodes, g.ends@, comps_view(comps@), membership@, rank, component_views(report.components@));
        assert forall|edges: Seq<GraphSnapshotEdge>| #[trigger] scoped_edges_ok(snapshot.spec_edges(), *scope, edges) implies {
            &&& report.self_loops@ == self_loop_ids(edges)
            &&& cyclic_views(report.cyclic_components@) == component_views(report.components@).filter(|c: Seq<GraphNodeId>| cyclic_nodes(edges, c))
            &&& forall|k: int| 0 <= k < report.cyclic_components@.len() ==>
                witness_ok(edges, (#[trigger] report.cyclic_components@[k]).nodes@, report.cyclic_components@[k].witness@)
            &&& forall|k: int| 0 <= k < report.cyclic_components@.len() ==> (#[trigger] report.cyclic_components@[k]).witness@.len() > 0
            &&& scc_partition(snapshot.spec_nodes(), edges, component_views(report.components@))
            &&& forall|path: Seq<int>| #[trigger] edge_cycle(edges, path) ==> report.cyclic_components@.len() > 0
            &&& forall|c: int, p1: Seq<int>, p2: Seq<int>, u: GraphNodeId, v: GraphNodeId|
                0 <= c < report.components@.len() && #[trigger] report.components@[c]@.contains(u) && #[trigger] edge_walk(edges, p1, u, v)
                    && #[trigger] edge_walk(edges, p2, v, u) ==> report.components@[c]@.contains(v)
        } by {
            lemma_scoped_unique(snapshot.spec_edges(), *scope, edges, g.edges@);
            assert(component_views(report.components@).take(comps@.len() as int) =~= component_views(report.components@));
            assert forall|path: Seq<int>| #[trigger] edge_cycle(edges, path) implies report.cyclic_components@.len() > 0 by {
                let cc = lemma_cycle_in_component(&g, nodes, comps_view(comps@), membership@, rank, path);
                let cv = component_views(report.components@)[cc];
                assert(cv[0] == nodes[comps_view(comps@)[cc][0] as int]);
                if comps_view(comps@)[cc].len() <= 1 {
                    let i = choose|i: int| 0 <= i < g.ends@.len() && #[trigger] g.ends@[i] == (comps_view(comps@)[cc][0], comps_view(comps@)[cc][0]);
                    assert(g.edges@[i].source == cv[0] && g.edges@[i].target == cv[0]);
                }
                assert(cyclic_nodes(edges, cv));
                component_views(report.components@).filter_lemma(|c: Seq<GraphNodeId>| cyclic_nodes(edges, c));
                assert(component_views(report.components@).filter(|c: Seq<GraphNodeId>| cyclic_nodes(edges, c)).contains(cv));
            }
            assert forall|c: int, p1: Seq<int>, p2: Seq<int>, u: GraphNodeId, v: GraphNodeId|
                0 <= c < report.components@.len() && #[trigger] report.components@[c]@.contains(u) && #[trigger] edge_walk(edges, p1, u, v)
                    && #[trigger] edge_walk(edges, p2, v, u) implies report.components@[c]@.contains(v) by {
                let k = choose|k: int| 0 <= k < report.components@[c]@.len() && report.components@[c]@[k] == u;
                let a0 = comps@[c]@[k] as int;
                assert(comps_view(comps@)[c] == comps@[c]@);
                assert(comps_view(comps@)[c].contains(comps@[c]@[k]));
                let b = lemma_component_closed(&g, nodes, comps_view(comps@), membership@, rank, edges, c, a0, p1, p2, u, v);
                let kb = choose|kb: int| 0 <= kb < comps@[c]@.len() && comps@[c]@[kb] == b as usize;
                assert(report.components@[c]@[kb] == v);
            }
            let cvw = component_views(report.components@);
            assert forall|c: int, u: GraphNodeId, v: GraphNodeId| 0 <= c < cvw.len() && #[trigger] cvw[c].contains(u) && #[trigger] cvw[c].contains(v)
                && u != v implies exists|p: Seq<int>| #[trigger] edge_walk(edges, p, u, v) by {
                assert(cvw[c] == report.components@[c]@);
                assert(comps_view(comps@)[c] == comps@[c]@);
                let ka = choose|ka: int| 0 <= ka < cvw[c].len() && cvw[c][ka] == u;
                let kb = choose|kb: int| 0 <= kb < cvw[c].len() && cvw[c][kb] == v;
                let ia = comps@[c]@[ka] as int;
                let ib = comps@[c]@[kb] as int;
                assert(comps_view(comps@)[c].contains(comps@[c]@[ka]));
                assert(comps_view(comps@)[c].contains(comps@[c]@[kb]));
                assert(membership@[ia] == membership@[ib]);
                assert(reaches(g.ends@, ia, ib));
                assert(ia != ib);
                let p = choose|p: Seq<int>| #[trigger] index_walk(g.ends@, p, ia, ib);
                lemma_index_edge_walk(&g, nodes, p, ia, ib);
                assert(edge_walk(edges, p, u, v));
            }
            assert forall|c: int, p1: Seq<int>, p2: Seq<int>, u: GraphNodeId, v: GraphNodeId|
                0 <= c < cvw.len() && #[trigger] cvw[c].contains(u) && #[trigger] edge_walk(edges, p1, u, v)
                    && #[trigger] edge_walk(edges, p2, v, u) implies cvw[c].contains(v) by {
                assert(cvw[c] == report.components@[c]@);
                assert(report.components@[c]@.contains(u));
            }
            assert(scc_partition(snapshot.spec_nodes(), edges, cvw));
        }
    }
    Ok(report)
}

/// Identities of the self-loops among the edges, in order.
fn self_loops_of(edges: &Vec<GraphSnapshotEdge>) -> (r: Vec<GraphEdgeId>)
    ensures
        r@ == self_loop_ids(edges@),
{
    let ghost pred = |e: GraphSnapshotEdge| e.source == e.target;
    let mut r: Vec<GraphEdgeId> = Vec::new();
    let mut i: usize = 0;
    proof {
        reveal(Seq::filter);
        assert(edges@.take(0) =~= Seq::<GraphSnapshotEdge>::empty());
        assert(r@ =~= edges@.take(0).filter(pred).map_values(|e: GraphSnapshotEdge| e.id));
    }
    while i < edges.len()
        invariant
            i <= edges@.len(),
            pred == (|e: GraphSnapshotEdge| e.source == e.target),
            r@ == edges@.take(i as int).filter(pred).map_values(|e: GraphSnapshotEdge| e.id),
        decreases edges@.len() - i,
    {
        let e = edges[i];
        proof {
            assert(edges@.take(i + 1) =~= edges@.take(i as int).push(e));
            edges@.take(i as int).lemma_filter_push(e, pred);
        }
        let ghost r0 = r@;
        if e.source == e.target {
            r.push(e.id);
            proof {
                assert(r@ =~= edges@.take(i + 1).filter(pred).map_values(|e: GraphSnapshotEdge| e.id));
            }
        }
        i += 1;
    }
    proof {
        assert(edges@.take(i as int) =~= edges@);
    }
    r
}

/// The deletions of the policy for indexed scoped edges, with the index of the
/// edge behind each deletion.
fn select_deletions(
    g: &IndexedGraph,
    Ghost(nodes): Ghost<Seq<GraphNodeId>>,
    comps: &Vec<Vec<usize>>,
    membership: &Vec<usize>,
    Ghost(rank): Ghost<Seq<int>>,
) -> (r: (Vec<RepairDeletion>, Ghost<Seq<int>>))
    requires
        g.wf(nodes),
        sorted_ids(snapshot_node_ids(nodes)),
        components_ok(nodes.len(), g.ends@, comps_view(comps@), membership@, rank),
    ensures
        ({
            let (deletions, owner) = r;
            &&& owner@.len() == deletions@.len()
            &&& forall|k: int| #![trigger deletions@[k]] 0 <= k < deletions@.len() ==> {
                let j = owner@[k];
                &&& 0 <= j < g.edges@.len()
                &&& g.edges@[j].id == deletions@[k].edge
                &&& (deletions@[k].reason == RepairReason::SelfLoop <==> g.edges@[j].source == g.edges@[j].target)
                &&& (g.edges@[j].source == g.edges@[j].target || id_lt(g.edges@[j].target.spec_id(), g.edges@[j].source.spec_id()))
                &&& (deletions@[k].reason matches RepairReason::DescendingEdgeInComponent { component } ==> component < comps@.len()
                    && membership@[g.ends@[j].0 as int] == component && membership@[g.ends@[j].1 as int] == component
                    && comps@[component as int]@.len() > 1)
            }
            &&& forall|j: int| 0 <= j < g.edges@.len() && !deletion_ids(deletions@).contains(#[trigger] g.edges@[j].id) ==> {
                let a = g.ends@[j].0 as int;
                let b = g.ends@[j].1 as int;
                a != b && key_lt(rank, a, b)
            }
            &&& forall|j: int| 0 <= j < g.edges@.len() && (#[trigger] g.edges@[j]).source == g.edges@[j].target ==> deletion_ids(deletions@).contains(g.edges@[j].id)
            &&& forall|k1: int, k2: int| 0 <= k1 < k2 < owner@.len() ==> #[trigger] owner@[k1] < #[trigger] owner@[k2]
        }),
{
    let mut deletions: Vec<RepairDeletion> = Vec::new();
    let ghost mut owner: Seq<int> = Seq::empty();
    let mut i: usize = 0;
    while i < g.edges.len()
        invariant
            g.wf(nodes),
            sorted_ids(snapshot_node_ids(nodes)),
            components_ok(nodes.len(), g.ends@, comps_view(comps@), membership@, rank),
            i <= g.edges@.len(),
            owner.len() == deletions@.len(),
            forall|k: int| 0 <= k < owner.len() ==> 0 <= #[trigger] owner[k] < i,
            forall|k1: int, k2: int| 0 <= k1 < k2 < owner.len() ==> #[trigger] owner[k1] < #[trigger] owner[k2],
            forall|k: int| #![trigger deletions@[k]] 0 <= k < deletions@.len() ==> {
                let j = owner[k];
                &&& g.edges@[j].id == deletions@[k].edge
                &&& (deletions@[k].reason == RepairReason::SelfLoop <==> g.edges@[j].source == g.edges@[j].target)
                &&& (g.edges@[j].source == g.edges@[j].target || id_lt(g.edges@[j].target.spec_id(), g.edges@[j].source.spec_id()))
                &&& (deletions@[k].reason matches RepairReason::DescendingEdgeInComponent { component } ==> component < comps@.len()
                    && membership@[g.ends@[j].0 as int] == component && membership@[g.ends@[j].1 as int] == component
                    && comps@[component as int]@.len() > 1)
            },
            forall|j: int| 0 <= j < i && !deletion_ids(deletions@).contains(#[trigger] g.edges@[j].id) ==> {
                let a = g.ends@[j].0 as int;
                let b = g.ends@[j].1 as int;
                a != b && key_lt(rank, a, b)
            },
            forall|j: int| 0 <= j < i && (#[trigger] g.edges@[j]).source == g.edges@[j].target ==> deletion_ids(deletions@).contains(g.edges@[j].id),
        decreases g.edges@.len() - i,
    {
        let (a, b) = g.ends[i];
        let e = g.edges[i];
        let c = membership[a];
        proof {
            assert(g.ends@[i as int] == (a, b));
            assert(nodes[a as int] == e.source && nodes[b as int] == e.target);
        }
        let ghost d0 = deletions@;
        let ghost del = if a == b {
            true
        } else {
            c == membership[b as int] && comps_view(comps@)[c as int].len() > 1 && id_lt(e.target.spec_id(), e.source.spec_id())
        };
        if a == b {
            deletions.push(RepairDeletion { edge: e.id, reason: RepairReason::SelfLoop });
        } else if c == membership[b] && comps[c].len() > 1 && id_less(e.target.id(), e.source.id()) {
            deletions.push(RepairDeletion { edge: e.id, reason: RepairReason::DescendingEdgeInComponent { component: c } });
        }
        proof {
            if del {
                owner = owner.push(i as int);
                assert(deletions@ =~= d0.push(deletions@[d0.len() as int]));
                assert(deletion_ids(deletions@)[d0.len() as int] == e.id);
            } else {
                assert(deletions@ == d0);
            }
            assert forall|k: int| 0 <= k < owner.len() implies 0 <= #[trigger] owner[k] < i + 1 by {}
            assert forall|k: int| #![trigger deletions@[k]] 0 <= k < deletions@.len() implies {
                let j = owner[k];
                &&& g.edges@[j].id == deletions@[k].edge
                &&& (deletions@[k].reason == RepairReason::SelfLoop <==> g.edges@[j].source == g.edges@[j].target)
                &&& (g.edges@[j].source == g.edges@[j].target || id_lt(g.edges@[j].target.spec_id(), g.edges@[j].source.spec_id()))
                &&& (deletions@[k].reason matches RepairReason::DescendingEdgeInComponent { component } ==> component < comps@.len()
                    && membership@[g.ends@[j].0 as int] == component && membership@[g.ends@[j].1 as int] == component
                    && comps@[component as int]@.len() > 1)
            } by {
                if k < d0.len() {
                    assert(deletions@[k] == d0[k]);
                } else {
                    assert(comps_view(comps@)[c as int] == comps@[c as int]@);
                    assert(g.ends@[i as int] == (a, b));
                    if a == b {
                        assert(e.source == e.target);
                    } else {
                        assert(a != b);
                        if e.source == e.target {
                            lemma_nodes_injective(nodes, a as int, b as int);
                        }
                    }
                }
            }
            assert forall|j: int| 0 <= j < i + 1 && !deletion_ids(deletions@).contains(#[trigger] g.edges@[j].id) implies {
                let x = g.ends@[j].0 as int;
                let y = g.ends@[j].1 as int;
                x != y && key_lt(rank, x, y)
            } by {
                if j < i {
                    if deletion_ids(d0).contains(g.edges@[j].id) {
                        let k = choose|k: int| 0 <= k < deletion_ids(d0).len() && deletion_ids(d0)[k] == g.edges@[j].id;
                        assert(deletion_ids(deletions@)[k] == g.edges@[j].id);
                    }
                } else {
                    assert(!del);
                    let x = a as int;
                    let y = b as int;
                    assert(x != y);
                    assert(rank[x] <= rank[y]);
                    if membership@[x] == membership@[y] {
                        assert(rank[x] == rank[y]);
                        let cv = comps_view(comps@);
                        assert(cv[c as int].contains(a) && cv[c as int].contains(b));
                        assert(cv[c as int].len() > 1) by {
                            if cv[c as int].len() <= 1 {
                                let ia = choose|q: int| 0 <= q < cv[c as int].len() && cv[c as int][q] == a;
                                let ib = choose|q: int| 0 <= q < cv[c as int].len() && cv[c as int][q] == b;
                            }
                        }
                        assert(!id_lt(e.target.spec_id(), e.source.spec_id()));
                        assert(e.source != e.target) by {
                            if e.source == e.target {
                                lemma_nodes_injective(nodes, x, y);
                            }
                        }
                        if y < x {
                            assert(id_lt(snapshot_node_ids(nodes)[y], snapshot_node_ids(nodes)[x]));
                        }
                    } else {
                        assert(rank[x] != rank[y]);
                    }
                }
            }
            assert forall|j: int| 0 <= j < i + 1 && (#[trigger] g.edges@[j]).source == g.edges@[j].target implies deletion_ids(deletions@).contains(g.edges@[j].id) by {
                if j < i {
                    let k = choose|k: int| 0 <= k < deletion_ids(d0).len() && deletion_ids(d0)[k] == g.edges@[j].id;
                    assert(deletion_ids(deletions@)[k] == g.edges@[j].id);
                } else {
                    lemma_nodes_injective(nodes, a as int, b as int);
                }
            }
        }
        i += 1;
    }
    (deletions, Ghost(owner))
}

/// The policy's deletions leave the scoped edges without a directed cycle.
#[verifier::rlimit(50)]
proof fn lemma_plan_acyclic(
    g: &IndexedGraph,
    nodes: Seq<GraphNodeId>,
    rank: Seq<int>,
    deletions: Seq<RepairDeletion>,
    edges: Seq<GraphSnapshotEdge>,
    path: Seq<int>,
)
    requires
        g.wf(nodes),
        sorted_ids(snapshot_node_ids(nodes)),
        edges == g.edges@,
        forall|j: int| 0 <= j < g.edges@.len() && !deletion_ids(deletions).contains(#[trigger] g.edges@[j].id) ==> {
            let a = g.ends@[j].0 as int;
            let b = g.ends@[j].1 as int;
            a != b && key_lt(rank, a, b)
        },
    ensures
        !cycle_avoiding(edges, deletion_ids(deletions), path),
{
    if cycle_avoiding(edges, deletion_ids(deletions), path) {
        let ends = g.ends@;
        let m = path.len() as int;
        assert forall|q: int| 0 <= q < m - 1 implies ends[#[trigger] path[q]].1 == ends[path[q + 1]].0 by {
            vstd::arithmetic::div_mod::lemma_small_mod((q + 1) as nat, m as nat);
            assert(edges[path[q]].target == edges[path[q + 1]].source);
            lemma_nodes_injective(nodes, ends[path[q]].1 as int, ends[path[q + 1]].0 as int);
        }
        assert forall|q: int| 0 <= q < m implies key_lt(rank, ends[#[trigger] path[q]].0 as int, ends[path[q]].1 as int) by {
            assert(!deletion_ids(deletions).contains(edges[path[q]].id));
        }
        lemma_rising_walk(ends, rank, path, m - 1);
        vstd::arithmetic::div_mod::lemma_mod_self_0(m);
        assert(edges[path[m - 1]].target == edges[path[0]].source);
        lemma_nodes_injective(nodes, ends[path[m - 1]].1 as int, ends[path[0]].0 as int);
    }
}

/// A walk along scoped edges from node `from` to node `to`.
pub open spec fn edge_walk(edges: Seq<GraphSnapshotEdge>, path: Seq<int>, from: GraphNodeId, to: GraphNodeId) -> bool {
    &&& path.len() > 0
    &&& forall|k: int| 0 <= k < path.len() ==> 0 <= #[trigger] path[k] < edges.len()
    &&& edges[path[0]].source == from
    &&& edges[path[path.len() - 1]].target == to
    &&& forall|k: int| 0 <= k < path.len() - 1 ==> edges[#[trigger] path[k]].target == edges[path[k + 1]].source
}

/// Ranks never fall along a walk of index edges.
proof fn lemma_rank_walk(ends: Seq<(usize, usize)>, rank: Seq<int>, path: Seq<int>, k: int)
    requires
        0 <= k < path.len(),
        forall|q: int| 0 <= q < path.len() ==> 0 <= #[trigger] path[q] < ends.len(),
        forall|q: int| 0 <= q < path.len() - 1 ==> ends[#[trigger] path[q]].1 == ends[path[q + 1]].0,
        forall|i: int| #![trigger ends[i]] 0 <= i < ends.len() ==> rank[ends[i].0 as int] <= rank[ends[i].1 as int],
    ensures
        rank[ends[path[0]].0 as int] <= rank[ends[path[k]].1 as int],
    decreases k,
{
    if k > 0 {
        lemma_rank_walk(ends, rank, path, k - 1);
        assert(ends[path[k - 1]].1 == ends[path[k]].0);
    }
    assert(rank[ends[path[k]].0 as int] <= rank[ends[path[k]].1 as int]);
}

/// The index nodes at the ends of a walk, the rank of the first at most that of the last.
proof fn lemma_walk_ranks(g: &IndexedGraph, nodes: Seq<GraphNodeId>, rank: Seq<int>, edges: Seq<GraphSnapshotEdge>, path: Seq<int>, u: GraphNodeId, v: GraphNodeId) -> (ab: (int, int))
    requires
        g.wf(nodes),
        sorted_ids(snapshot_node_ids(nodes)),
        edges == g.edges@,
        forall|e: int| #![trigger g.ends@[e]] 0 <= e < g.ends@.len() ==> rank[g.ends@[e].0 as int] <= rank[g.ends@[e].1 as int],
        edge_walk(edges, path, u, v),
    ensures
        0 <= ab.0 < nodes.len() && 0 <= ab.1 < nodes.len(),
        nodes[ab.0] == u && nodes[ab.1] == v,
        rank[ab.0] <= rank[ab.1],
{
    let ends = g.ends@;
    let m = path.len() as int;
    assert forall|q: int| 0 <= q < m - 1 implies ends[#[trigger] path[q]].1 == ends[path[q + 1]].0 by {
        assert(edges[path[q]].target == edges[path[q + 1]].source);
        lemma_nodes_injective(nodes, ends[path[q]].1 as int, ends[path[q + 1]].0 as int);
    }
    lemma_rank_walk(ends, rank, path, m - 1);
    (ends[path[0]].0 as int, ends[path[m - 1]].1 as int)
}

/// Nodes that reach each other share their component.
proof fn lemma_component_closed(
    g: &IndexedGraph,
    nodes: Seq<GraphNodeId>,
    comps: Seq<Seq<usize>>,
    membership: Seq<usize>,
    rank: Seq<int>,
    edges: Seq<GraphSnapshotEdge>,
    c: int,
    a0: int,
    p1: Seq<int>,
    p2: Seq<int>,
    u: GraphNodeId,
    v: GraphNodeId,
) -> (b: int)
    requires
        g.wf(nodes),
        sorted_ids(snapshot_node_ids(nodes)),
        edges == g.edges@,
        components_ok(nodes.len(), g.ends@, comps, membership, rank),
        0 <= c < comps.len(),
        nodes.len() <= usize::MAX,
        0 <= a0 < nodes.len(),
        comps[c].contains(a0 as usize),
        nodes[a0] == u,
        edge_walk(edges, p1, u, v),
        edge_walk(edges, p2, v, u),
    ensures
        0 <= b < nodes.len(),
        nodes[b] == v,
        comps[c].contains(b as usize),
{
    let (a, b) = lemma_walk_ranks(g, nodes, rank, edges, p1, u, v);
    let (b2, a2) = lemma_walk_ranks(g, nodes, rank, edges, p2, v, u);
    lemma_nodes_injective(nodes, a, a0);
    lemma_nodes_injective(nodes, a2, a0);
    lemma_nodes_injective(nodes, b, b2);
    assert(rank[a] == rank[b]);
    assert(membership[a] == membership[b]);
    assert(comps[c].contains(a0 as usize));
    assert((a0 as usize) as int == a0);
    assert((b as usize) as int == b);
    assert(membership[a0] == c);
    assert(comps[c].contains(b as usize) <==> ((b as usize) < nodes.len() && membership[(b as usize) as int] == c));
    b
}

/// An edge to a lower identity whose target leads back to its source lies on a
/// cycle, so the plan deletes it.
proof fn lemma_back_edge_deleted(
    g: &IndexedGraph,
    nodes: Seq<GraphNodeId>,
    rank: Seq<int>,
    deletions: Seq<RepairDeletion>,
    edges: Seq<GraphSnapshotEdge>,
    i: int,
    path: Seq<int>,
)
    requires
        g.wf(nodes),
        sorted_ids(snapshot_node_ids(nodes)),
        edges == g.edges@,
        rank.len() == nodes.len(),
        forall|e: int| #![trigger g.ends@[e]] 0 <= e < g.ends@.len() ==> rank[g.ends@[e].0 as int] <= rank[g.ends@[e].1 as int],
        forall|j: int| 0 <= j < g.edges@.len() && !deletion_ids(deletions).contains(#[trigger] g.edges@[j].id) ==> {
            let a = g.ends@[j].0 as int;
            let b = g.ends@[j].1 as int;
            a != b && key_lt(rank, a, b)
        },
        0 <= i < edges.len(),
        id_lt(edges[i].target.spec_id(), edges[i].source.spec_id()),
        edge_walk(edges, path, edges[i].target, edges[i].source),
    ensures
        deletion_ids(deletions).contains(edges[i].id),
{
    if !deletion_ids(deletions).contains(edges[i].id) {
        let ends = g.ends@;
        let m = path.len() as int;
        assert forall|q: int| 0 <= q < m - 1 implies ends[#[trigger] path[q]].1 == ends[path[q + 1]].0 by {
            assert(edges[path[q]].target == edges[path[q + 1]].source);
            lemma_nodes_injective(nodes, ends[path[q]].1 as int, ends[path[q + 1]].0 as int);
        }
        lemma_rank_walk(ends, rank, path, m - 1);
        let a = ends[i].0 as int;
        let b = ends[i].1 as int;
        assert(edges[path[0]].source == edges[i].target);
        lemma_nodes_injective(nodes, ends[path[0]].0 as int, b);
        assert(edges[path[m - 1]].target == edges[i].source);
        lemma_nodes_injective(nodes, ends[path[m - 1]].1 as int, a);
        assert(key_lt(rank, a, b));
        assert(a < b);
        assert(id_lt(snapshot_node_ids(nodes)[a], snapshot_node_ids(nodes)[b]));
    }
}

/// Plan deletions that make the scoped edges acyclic: every self-loop, and inside
/// every component of two or more nodes each edge whose source identity is above
/// its target's. Edges between components and edges outside the scope stay.
/// Components that satisfy `components_ok`, named by their nodes, are the strongly
/// connected components of the scoped edges.
proof fn lemma_scc_partition(
    g: &IndexedGraph,
    nodes: Seq<GraphNodeId>,
    comps: Seq<Seq<usize>>,
    membership: Seq<usize>,
    rank: Seq<int>,
    edges: Seq<GraphSnapshotEdge>,
    ids: Seq<Seq<GraphNodeId>>,
)
    requires
        g.wf(nodes),
        nodes.len() <= usize::MAX,
        sorted_ids(snapshot_node_ids(nodes)),
        edges == g.edges@,
        components_ok(nodes.len(), g.ends@, comps, membership, rank),
        ids.len() == comps.len(),
        forall|c: int| 0 <= c < comps.len() ==> (#[trigger] ids[c]).len() == comps[c].len(),
        forall|c: int, k: int| 0 <= c < comps.len() && 0 <= k < comps[c].len() ==> (#[trigger] ids[c][k]) == nodes[comps[c][k] as int],
    ensures
        scc_partition(nodes, edges, ids),
{
    lemma_partition(nodes, g.ends@, comps, membership, rank, ids);
    assert forall|c: int, u: GraphNodeId, v: GraphNodeId| 0 <= c < ids.len() && #[trigger] ids[c].contains(u) && #[trigger] ids[c].contains(v)
        && u != v implies exists|p: Seq<int>| #[trigger] edge_walk(edges, p, u, v) by {
        let ka = choose|ka: int| 0 <= ka < ids[c].len() && ids[c][ka] == u;
        let kb = choose|kb: int| 0 <= kb < ids[c].len() && ids[c][kb] == v;
        let ia = comps[c][ka] as int;
        let ib = comps[c][kb] as int;
        assert(comps[c].contains(comps[c][ka]));
        assert(comps[c].contains(comps[c][kb]));
        assert(membership[ia] == membership[ib]);
        assert(reaches(g.ends@, ia, ib));
        let p = choose|p: Seq<int>| #[trigger] index_walk(g.ends@, p, ia, ib);
        lemma_index_edge_walk(g, nodes, p, ia, ib);
    }
    assert forall|c: int, p1: Seq<int>, p2: Seq<int>, u: GraphNodeId, v: GraphNodeId|
        0 <= c < ids.len() && #[trigger] ids[c].contains(u) && #[trigger] edge_walk(edges, p1, u, v)
            && #[trigger] edge_walk(edges, p2, v, u) implies ids[c].contains(v) by {
        let k = choose|k: int| 0 <= k < ids[c].len() && ids[c][k] == u;
        let a0 = comps[c][k] as int;
        assert(comps[c].contains(comps[c][k]));
        let b = lemma_component_closed(g, nodes, comps, membership, rank, edges, c, a0, p1, p2, u, v);
        let kb = choose|kb: int| 0 <= kb < comps[c].len() && comps[c][kb] == b as usize;
        assert(ids[c][kb] == v);
    }
}

/// Deletion `d` names a scoped edge; one that is no self-loop joins two nodes of a
/// component of two or more nodes, whose index in `comps` its reason names.
pub open spec fn deletion_in(edges: Seq<GraphSnapshotEdge>, comps: Seq<Seq<GraphNodeId>>, d: RepairDeletion) -> bool {
    exists|i: int| 0 <= i < edges.len() && #[trigger] edges[i].id == d.edge
        && (d.reason == RepairReason::SelfLoop <==> edges[i].source == edges[i].target)
        && (d.reason matches RepairReason::DescendingEdgeInComponent { component } ==> component < comps.len()
            && comps[component as int].len() > 1 && comps[component as int].contains(edges[i].source)
            && comps[component as int].contains(edges[i].target))
}

pub fn plan_break_cycles(snapshot: &GraphSnapshot, scope: &GraphScope, policy: RepairPolicy) -> (r: Result<RepairPlan, GraphRepairError>)
    requires
        snapshot.wf(),
    ensures
        match r {
            Ok(plan) => {
                &&& plan.spec_graph() == snapshot.spec_graph()
                &&& plan.spec_version() == snapshot.spec_version()
                &&& selection_known(snapshot.spec_edges(), *scope)
                &&& canonical_scope(*scope, plan.spec_scope())
                &&& forall|edges: Seq<GraphSnapshotEdge>| #[trigger] scoped_edges_ok(snapshot.spec_edges(), *scope, edges) ==> {
                    // Every deletion is a scoped edge: a self-loop, or an edge to a lower identity.
                    &&& forall|k: int| 0 <= k < plan.spec_deletions().len() ==> deletion_ok(edges, #[trigger] plan.spec_deletions()[k])
                    // Deletions come in the order of the scoped edges.
                    &&& in_edge_order(edges, plan.spec_deletions())
                    // Only edges inside a strongly connected component of two or more nodes
                    // are deleted beside self-loops, and each names that component.
                    &&& exists|comps: Seq<Seq<GraphNodeId>>| #[trigger] scc_partition(snapshot.spec_nodes(), edges, comps)
                        && forall|k: int| 0 <= k < plan.spec_deletions().len() ==> deletion_in(edges, comps, #[trigger] plan.spec_deletions()[k])
                    // Every scoped self-loop is deleted.
                    &&& forall|i: int| 0 <= i < edges.len() && (#[trigger] edges[i]).source == edges[i].target ==> deletion_ids(plan.spec_deletions()).contains(edges[i].id)
                    // The scoped edges that stay form no directed cycle.
                    &&& forall|path: Seq<int>| !cycle_avoiding(edges, deletion_ids(plan.spec_deletions()), path)
                    // Every edge to a lower identity that lies on a cycle is deleted.
                    &&& forall|i: int, path: Seq<int>|
                        0 <= i < edges.len() && id_lt(edges[i].target.spec_id(), edges[i].source.spec_id()) && #[trigger] edge_walk(
                            edges,
                            path,
                            edges[i].target,
                            edges[i].source,
                        ) ==> deletion_ids(plan.spec_deletions()).contains(#[trigger] edges[i].id)
                }
            },
            Err(GraphRepairError::InvalidSelection(x)) => first_unknown(snapshot.spec_edges(), *scope, x),
            Err(GraphRepairError::InvalidPlan) => exists|edges: Seq<GraphSnapshotEdge>| selection_known(snapshot.spec_edges(), *scope)
                && #[trigger] scoped_edges_ok(snapshot.spec_edges(), *scope, edges)
                && exists|i: int| 0 <= i < edges.len() && (!snapshot_node_ids(snapshot.spec_nodes()).contains((#[trigger] edges[i]).source.spec_id())
                    || !snapshot_node_ids(snapshot.spec_nodes()).contains(edges[i].target.spec_id())),
            Err(_) => false,
        },
{
    let g = match IndexedGraph::new(snapshot, scope) {
        Ok(g) => g,
        Err(e) => {
            return Err(e);
        },
    };
    let ghost nodes = snapshot.nodes@;
    let (comps, membership, Ghost(rank)) = g.components(Ghost(nodes));
    let (deletions, Ghost(owner)) = select_deletions(&g, Ghost(nodes), &comps, &membership, Ghost(rank));
    let plan = RepairPlan {
        graph: snapshot.graph,
        version: copy_ids(&snapshot.version),
        policy,
        scope: g.scope,
        deletions,
    };
    proof {
        assert forall|edges: Seq<GraphSnapshotEdge>| #[trigger] scoped_edges_ok(snapshot.spec_edges(), *scope, edges) implies {
            &&& forall|k: int| 0 <= k < plan.spec_deletions().len() ==> deletion_ok(edges, #[trigger] plan.spec_deletions()[k])
            &&& in_edge_order(edges, plan.spec_deletions())
            &&& exists|comps: Seq<Seq<GraphNodeId>>| #[trigger] scc_partition(snapshot.spec_nodes(), edges, comps)
                && forall|k: int| 0 <= k < plan.spec_deletions().len() ==> deletion_in(edges, comps, #[trigger] plan.spec_deletions()[k])
            &&& forall|i: int| 0 <= i < edges.len() && (#[trigger] edges[i]).source == edges[i].target ==> deletion_ids(plan.spec_deletions()).contains(edges[i].id)
            &&& forall|path: Seq<int>| !cycle_avoiding(edges, deletion_ids(plan.spec_deletions()), path)
            &&& forall|i: int, path: Seq<int>|
                0 <= i < edges.len() && id_lt(edges[i].target.spec_id(), edges[i].source.spec_id()) && #[trigger] edge_walk(
                    edges,
                    path,
                    edges[i].target,
                    edges[i].source,
                ) ==> deletion_ids(plan.spec_deletions()).contains(#[trigger] edges[i].id)
        } by {
            lemma_scoped_unique(snapshot.spec_edges(), *scope, edges, g.edges@);
            assert forall|k: int| 0 <= k < plan.spec_deletions().len() implies deletion_ok(edges, #[trigger] plan.spec_deletions()[k]) by {
                let j = owner[k];
                assert(deletions@[k] == plan.spec_deletions()[k]);
                assert(0 <= j < edges.len());
                assert(edges[j].id == plan.spec_deletions()[k].edge);
            }
            assert(plan.spec_deletions() == deletions@);
            assert forall|k: int| 0 <= k < owner.len() implies 0 <= #[trigger] owner[k] < edges.len() && edges[owner[k]].id == plan.spec_deletions()[k].edge by {
                assert(deletions@[k] == plan.spec_deletions()[k]);
            }
            lemma_in_edge_order(edges, plan.spec_deletions(), owner);
            let cw = comps_view(comps@);
            let ids = Seq::new(cw.len(), |c: int| Seq::new(cw[c].len(), |k: int| nodes[cw[c][k] as int]));
            assert(nodes.len() == snapshot.nodes.len());
            lemma_scc_partition(&g, nodes, cw, membership@, rank, edges, ids);
            assert forall|k: int| 0 <= k < plan.spec_deletions().len() implies deletion_in(edges, ids, #[trigger] plan.spec_deletions()[k]) by {
                let j = owner[k];
                assert(deletions@[k] == plan.spec_deletions()[k]);
                assert(edges[j].id == plan.spec_deletions()[k].edge);
                let a = g.ends@[j].0;
                let b = g.ends@[j].1;
                assert(nodes[a as int] == edges[j].source && nodes[b as int] == edges[j].target);
                if let RepairReason::DescendingEdgeInComponent { component } = plan.spec_deletions()[k].reason {
                    let c = component as int;
                    assert(cw[c] == comps@[c]@);
                    assert(cw[c].contains(a));
                    assert(cw[c].contains(b));
                    let qa = choose|q: int| 0 <= q < cw[c].len() && cw[c][q] == a;
                    let qb = choose|q: int| 0 <= q < cw[c].len() && cw[c][q] == b;
                    assert(ids[c][qa] == edges[j].source);
                    assert(ids[c][qb] == edges[j].target);
                }
            }
            assert(in_edge_order(edges, plan.spec_deletions()));
            assert forall|path: Seq<int>| !cycle_avoiding(edges, deletion_ids(plan.spec_deletions()), path) by {
                lemma_plan_acyclic(&g, nodes, rank, plan.spec_deletions(), edges, path);
            }
            assert forall|i: int, path: Seq<int>|
                0 <= i < edges.len() && id_lt(edges[i].target.spec_id(), edges[i].source.spec_id()) && #[trigger] edge_walk(
                    edges,
                    path,
                    edges[i].target,
                    edges[i].source,
                ) implies deletion_ids(plan.spec_deletions()).contains(#[trigger] edges[i].id) by {
                lemma_back_edge_deleted(&g, nodes, rank, plan.spec_deletions(), edges, i, path);
            }
        }
    }
    Ok(plan)
}

} // verus!
