//! A deliberately plain operation-set model of the graph: the state at a causally
//! closed set of events, computed from happens-before alone.
use vstd::prelude::*;

verus! {

/// An event's position in the global history.
pub type EventId = usize;

#[derive(Clone, Copy, Debug, PartialEq, Eq, Structural)]
pub struct NodeId {
    pub graph: u8,
    pub birth: EventId,
}

#[derive(Clone, Copy, Debug, PartialEq, Eq, Structural)]
pub struct EdgeId {
    pub graph: u8,
    pub birth: EventId,
}

#[derive(Clone, Copy, Debug, PartialEq, Eq, Structural)]
pub enum Object {
    Node(NodeId),
    Edge(EdgeId),
}

impl Object {
    pub open spec fn spec_graph(self) -> u8 {
        match self {
            Object::Node(n) => n.graph,
            Object::Edge(e) => e.graph,
        }
    }

    pub open spec fn spec_birth(self) -> EventId {
        match self {
            Object::Node(n) => n.birth,
            Object::Edge(e) => e.birth,
        }
    }

    pub fn graph(self) -> (r: u8)
        ensures
            r == self.spec_graph(),
    {
        match self {
            Object::Node(n) => n.graph,
            Object::Edge(e) => e.graph,
        }
    }

    pub fn birth(self) -> (r: EventId)
        ensures
            r == self.spec_birth(),
    {
        match self {
            Object::Node(n) => n.birth,
            Object::Edge(e) => e.birth,
        }
    }
}

/// What one event does. Metadata writes name a key (the writer's peer) and a
/// value, and take no part in the graph's lifecycle.
#[derive(Clone, Copy, Debug, PartialEq, Eq, Structural)]
pub enum Action {
    CreateNode(u8),
    CreateEdge { graph: u8, source: NodeId, target: NodeId },
    Delete(Object),
    /// Restore observes every active delete in its causal past.
    Restore(Object),
    Write { object: Object, key: u64, value: u64 },
    Remove { object: Object, key: u64 },
}

/// The object an action with identity `id` is about.
pub open spec fn action_object(a: Action, id: EventId) -> Object {
    match a {
        Action::CreateNode(g) => Object::Node(NodeId { graph: g, birth: id }),
        Action::CreateEdge { graph, .. } => Object::Edge(EdgeId { graph, birth: id }),
        Action::Delete(o) => o,
        Action::Restore(o) => o,
        Action::Write { object, .. } => object,
        Action::Remove { object, .. } => object,
    }
}

pub open spec fn is_lifecycle(a: Action) -> bool {
    a is CreateNode || a is CreateEdge || a is Delete || a is Restore
}

pub open spec fn is_creation(a: Action) -> bool {
    a is CreateNode || a is CreateEdge
}

impl Action {
    pub fn object(&self, id: EventId) -> (r: Object)
        ensures
            r == action_object(*self, id),
    {
        match self {
            Action::CreateNode(g) => Object::Node(NodeId { graph: *g, birth: id }),
            Action::CreateEdge { graph, .. } => Object::Edge(EdgeId { graph: *graph, birth: id }),
            Action::Delete(o) => *o,
            Action::Restore(o) => *o,
            Action::Write { object, .. } => *object,
            Action::Remove { object, .. } => *object,
        }
    }

    pub fn is_lifecycle(&self) -> (r: bool)
        ensures
            r == is_lifecycle(*self),
    {
        match self {
            Action::CreateNode(_) => true,
            Action::CreateEdge { .. } => true,
            Action::Delete(_) => true,
            Action::Restore(_) => true,
            _ => false,
        }
    }

    pub fn is_delete(&self) -> (r: bool)
        ensures
            r == (*self is Delete),
    {
        match self {
            Action::Delete(_) => true,
            _ => false,
        }
    }
}

/// One event: its action and the complete set of its causal ancestors.
#[derive(Clone, Debug)]
pub struct Event {
    pub ancestors: Vec<bool>,
    pub action: Action,
}

/// `i` is in the set `v`.
pub open spec fn member(v: Seq<bool>, i: int) -> bool {
    0 <= i < v.len() && v[i]
}

/// Membership in an event set.
pub fn contains(v: &Vec<bool>, i: usize) -> (r: bool)
    ensures
        r == member(v@, i as int),
{
    i < v.len() && v[i]
}

/// `a` is a subset of `b`.
pub open spec fn subset(a: Seq<bool>, b: Seq<bool>) -> bool {
    forall|i: int| member(a, i) ==> #[trigger] member(b, i)
}

pub fn is_subset(a: &Vec<bool>, b: &Vec<bool>) -> (r: bool)
    ensures
        r == subset(a@, b@),
{
    let mut i: usize = 0;
    while i < a.len()
        invariant
            i <= a@.len(),
            forall|k: int| 0 <= k < i ==> member(a@, k) ==> member(b@, k),
        decreases a@.len() - i,
    {
        if a[i] && !contains(b, i) {
            assert(member(a@, i as int) && !member(b@, i as int));
            return false;
        }
        i += 1;
    }
    assert forall|k: int| member(a@, k) implies #[trigger] member(b@, k) by {}
    true
}

/// The visible state of one graph scope according to the model.
#[derive(Clone, Debug)]
pub struct ModelNode {
    pub id: NodeId,
    pub alive: bool,
}

#[derive(Clone, Debug)]
pub struct ModelEdge {
    pub id: EdgeId,
    pub source: NodeId,
    pub target: NodeId,
    pub alive: bool,
    pub visible: bool,
}

#[derive(Clone, Debug)]
pub struct Snapshot {
    pub nodes: Vec<ModelNode>,
    pub edges: Vec<ModelEdge>,
}

impl Snapshot {
    /// Whether a node of the snapshot is alive; `None` when it was not created.
    pub fn node_alive(&self, id: NodeId) -> (r: Option<bool>)
        ensures
            r matches Some(a) ==> exists|i: int| 0 <= i < self.nodes@.len() && (#[trigger] self.nodes@[i]).id == id && self.nodes@[i].alive == a,
            r is None ==> forall|i: int| 0 <= i < self.nodes@.len() ==> (#[trigger] self.nodes@[i]).id != id,
    {
        let mut i: usize = 0;
        while i < self.nodes.len()
            invariant
                i <= self.nodes@.len(),
                forall|k: int| 0 <= k < i ==> (#[trigger] self.nodes@[k]).id != id,
            decreases self.nodes@.len() - i,
        {
            if self.nodes[i].id == id {
                return Some(self.nodes[i].alive);
            }
            i += 1;
        }
        None
    }

    fn edge_index(&self, id: EdgeId) -> (r: Option<usize>)
        ensures
            r matches Some(i) ==> i < self.edges@.len() && self.edges@[i as int].id == id,
            r is None ==> forall|i: int| 0 <= i < self.edges@.len() ==> (#[trigger] self.edges@[i]).id != id,
    {
        let mut i: usize = 0;
        while i < self.edges.len()
            invariant
                i <= self.edges@.len(),
                forall|k: int| 0 <= k < i ==> (#[trigger] self.edges@[k]).id != id,
            decreases self.edges@.len() - i,
        {
            if self.edges[i].id == id {
                return Some(i);
            }
            i += 1;
        }
        None
    }

    /// Whether an edge of the snapshot is alive; `None` when it was not created.
    pub fn edge_alive(&self, id: EdgeId) -> (r: Option<bool>)
        ensures
            r matches Some(a) ==> exists|i: int| 0 <= i < self.edges@.len() && (#[trigger] self.edges@[i]).id == id && self.edges@[i].alive == a,
            r is None ==> forall|i: int| 0 <= i < self.edges@.len() ==> (#[trigger] self.edges@[i]).id != id,
    {
        match self.edge_index(id) {
            Some(i) => Some(self.edges[i].alive),
            None => None,
        }
    }

    /// Whether an edge of the snapshot is visible; `None` when it was not created.
    pub fn edge_visible(&self, id: EdgeId) -> (r: Option<bool>)
        ensures
            r matches Some(a) ==> exists|i: int| 0 <= i < self.edges@.len() && (#[trigger] self.edges@[i]).id == id && self.edges@[i].visible == a,
            r is None ==> forall|i: int| 0 <= i < self.edges@.len() ==> (#[trigger] self.edges@[i]).id != id,
    {
        match self.edge_index(id) {
            Some(i) => Some(self.edges[i].visible),
            None => None,
        }
    }

    /// The visible edges, in creation order.
    pub fn visible_edges(&self) -> (r: Vec<EdgeId>)
        ensures
            forall|x: EdgeId| r@.contains(x) <==> exists|i: int| 0 <= i < self.edges@.len() && (#[trigger] self.edges@[i]).id == x && self.edges@[i].visible,
    {
        let mut r: Vec<EdgeId> = Vec::new();
        let mut i: usize = 0;
        while i < self.edges.len()
            invariant
                i <= self.edges@.len(),
                forall|x: EdgeId| r@.contains(x) <==> exists|k: int| 0 <= k < i && (#[trigger] self.edges@[k]).id == x && self.edges@[k].visible,
            decreases self.edges@.len() - i,
        {
            let ghost r0 = r@;
            if self.edges[i].visible {
                r.push(self.edges[i].id);
            }
            proof {
                assert forall|x: EdgeId| r@.contains(x) <==> exists|k: int| 0 <= k < i + 1 && (#[trigger] self.edges@[k]).id == x && self.edges@[k].visible by {
                    if r@.contains(x) && !r0.contains(x) {
                        assert(self.edges@[i as int].id == x);
                    }
                    if r0.contains(x) {
                        assert(r@.contains(x)) by {
                            let k = choose|k: int| 0 <= k < r0.len() && r0[k] == x;
                            assert(r@[k] == x);
                        }
                    }
                    if exists|k: int| 0 <= k < i + 1 && (#[trigger] self.edges@[k]).id == x && self.edges@[k].visible {
                        let k = choose|k: int| 0 <= k < i + 1 && (#[trigger] self.edges@[k]).id == x && self.edges@[k].visible;
                        if k == i {
                            assert(r@[r@.len() - 1] == x);
                        } else {
                            assert(r0.contains(x));
                            let m = choose|m: int| 0 <= m < r0.len() && r0[m] == x;
                            assert(r@[m] == x);
                        }
                    }
                }
            }
            i += 1;
        }
        r
    }
}

/// The whole history.
pub struct Oracle {
    pub events: Vec<Event>,
}

/// Event `i` of `events` is a lifecycle event of `o`.
pub open spec fn lifecycle_of(events: Seq<Event>, o: Object, i: int) -> bool {
    0 <= i < events.len() && is_lifecycle(events[i].action) && action_object(events[i].action, i as EventId) == o
}

/// A later lifecycle event of `o` in `v` has event `i` among its ancestors.
pub open spec fn superseded(events: Seq<Event>, v: Seq<bool>, o: Object, i: int) -> bool {
    exists|j: int| member(v, j) && #[trigger] lifecycle_of(events, o, j) && member(events[j].ancestors@, i)
}

/// `o` is alive at `v`: no latest lifecycle event of it (by happens-before, not
/// by time) is a delete.
pub open spec fn model_alive(events: Seq<Event>, v: Seq<bool>, o: Object) -> bool {
    forall|i: int| member(v, i) && #[trigger] lifecycle_of(events, o, i) && events[i].action is Delete ==> superseded(events, v, o, i)
}

/// `v` is causally closed: it holds the ancestors of its events.
pub open spec fn closed(events: Seq<Event>, v: Seq<bool>) -> bool {
    forall|i: int| #[trigger] member(v, i) ==> i < events.len() && subset(events[i].ancestors@, v)
}

impl Oracle {
    pub fn new() -> (r: Oracle)
        ensures
            r.events@.len() == 0,
    {
        Oracle { events: Vec::new() }
    }

    pub fn next_id(&self) -> (r: EventId)
        ensures
            r == self.events@.len(),
    {
        self.events.len()
    }

    /// Whether `v` holds the ancestors of each of its events.
    pub fn is_closed(&self, v: &Vec<bool>) -> (r: bool)
        ensures
            r == closed(self.events@, v@),
    {
        let mut i: usize = 0;
        while i < v.len()
            invariant
                i <= v@.len(),
                forall|k: int| 0 <= k < i ==> member(v@, k) ==> k < self.events@.len() && subset(self.events@[k].ancestors@, v@),
            decreases v@.len() - i,
        {
            if v[i] {
                if i >= self.events.len() || !is_subset(&self.events[i].ancestors, v) {
                    assert(member(v@, i as int));
                    return false;
                }
            }
            i += 1;
        }
        true
    }

    /// The received events whose ancestors have all been received: the largest
    /// causally closed part of `received` when ancestor sets are transitive.
    pub fn closed_subset(&self, received: &Vec<bool>) -> (r: Vec<bool>)
        ensures
            r@.len() == self.events@.len(),
            forall|i: int| #[trigger] member(r@, i) <==> member(received@, i) && i < self.events@.len() && subset(self.events@[i].ancestors@, received@),
    {
        let mut r: Vec<bool> = Vec::new();
        let mut i: usize = 0;
        while i < self.events.len()
            invariant
                i <= self.events@.len(),
                r@.len() == i,
                forall|k: int| 0 <= k < i ==> (r@[k] <==> member(received@, k) && subset(self.events@[k].ancestors@, received@)),
            decreases self.events@.len() - i,
        {
            let b = contains(received, i) && is_subset(&self.events[i].ancestors, received);
            r.push(b);
            i += 1;
        }
        r
    }

    /// The object's creation is in `at` with the right kind and scope.
    pub open spec fn spec_has_object(&self, at: Seq<bool>, o: Object) -> bool {
        member(at, o.spec_birth() as int) && o.spec_birth() < self.events@.len()
            && is_creation(self.events@[o.spec_birth() as int].action)
            && action_object(self.events@[o.spec_birth() as int].action, o.spec_birth()) == o
    }

    /// Whether the object's creation is in `at` with the right kind and scope.
    pub fn has_object(&self, at: &Vec<bool>, o: Object) -> (r: bool)
        ensures
            r == self.spec_has_object(at@, o),
    {
        let b = o.birth();
        if !contains(at, b) || b >= self.events.len() {
            return false;
        }
        let a = &self.events[b].action;
        let creation = match a {
            Action::CreateNode(_) => true,
            Action::CreateEdge { .. } => true,
            _ => false,
        };
        creation && a.object(b) == o
    }

    /// `action` may be written at the causally closed version `at`: an edge joins
    /// two nodes of its own scope, and any other non-creating action names an
    /// object created in `at`.
    pub open spec fn valid_at(&self, at: Seq<bool>, action: Action) -> bool {
        closed(self.events@, at) && match action {
            Action::CreateNode(_) => true,
            Action::CreateEdge { graph, source, target } => source.graph == graph && target.graph == graph
                && self.spec_has_object(at, Object::Node(source)) && self.spec_has_object(at, Object::Node(target)),
            _ => self.spec_has_object(at, action_object(action, self.events@.len() as usize)),
        }
    }

    /// Whether `action` may be written at `at`.
    pub fn validate(&self, at: &Vec<bool>, action: &Action) -> (r: bool)
        ensures
            r == self.valid_at(at@, *action),
    {
        if !self.is_closed(at) {
            return false;
        }
        match action {
            Action::CreateNode(_) => true,
            Action::CreateEdge { graph, source, target } => {
                source.graph == *graph && target.graph == *graph && self.has_object(at, Object::Node(*source))
                    && self.has_object(at, Object::Node(*target))
            },
            _ => self.has_object(at, action.object(self.events.len())),
        }
    }

    /// Record `action` with `at` as its causal past.
    pub fn append(&mut self, at: &Vec<bool>, action: Action) -> (r: EventId)
        ensures
            r == old(self).events@.len(),
            final(self).events@.len() == old(self).events@.len() + 1,
            final(self).events@.subrange(0, r as int) == old(self).events@,
            final(self).events@[r as int].ancestors@ == at@,
            final(self).events@[r as int].action == action,
    {
        let id = self.events.len();
        let anc = copy_set(at);
        self.events.push(Event { ancestors: anc, action });
        assert(self.events@.subrange(0, id as int) =~= old(self).events@);
        id
    }

    /// Record `action` with `at` as its causal past, then add it to `at`.
    pub fn append_to(&mut self, at: &mut Vec<bool>, action: Action) -> (r: EventId)
        ensures
            r == old(self).events@.len(),
            final(self).events@.len() == old(self).events@.len() + 1,
            final(self).events@.subrange(0, r as int) == old(self).events@,
            final(self).events@[r as int].ancestors@ == old(at)@,
            final(self).events@[r as int].action == action,
            member(final(at)@, r as int),
            forall|k: int| k != r ==> (member(final(at)@, k) <==> member(old(at)@, k)),
    {
        let id = self.append(at, action);
        add_event(at, id);
        id
    }

    /// Whether `o` is alive at `v`.
    pub fn alive(&self, v: &Vec<bool>, o: Object) -> (r: bool)
        ensures
            r == model_alive(self.events@, v@, o),
    {
        let n = self.events.len();
        let mut i: usize = 0;
        while i < n
            invariant
                n == self.events@.len(),
                i <= n,
                forall|k: int| 0 <= k < i ==> (member(v@, k) && #[trigger] lifecycle_of(self.events@, o, k) && self.events@[k].action is Delete
                    ==> superseded(self.events@, v@, o, k)),
            decreases n - i,
        {
            if contains(v, i) && self.events[i].action.is_lifecycle() && self.events[i].action.object(i) == o && self.events[i].action.is_delete() {
                let mut found = false;
                let mut j: usize = 0;
                while j < n
                    invariant
                        n == self.events@.len(),
                        i < n,
                        j <= n,
                        found ==> superseded(self.events@, v@, o, i as int),
                        !found ==> forall|k: int| 0 <= k < j ==> !(member(v@, k) && #[trigger] lifecycle_of(self.events@, o, k) && member(self.events@[k].ancestors@, i as int)),
                    decreases n - j,
                {
                    if !found && contains(v, j) && self.events[j].action.is_lifecycle() && self.events[j].action.object(j) == o
                        && contains(&self.events[j].ancestors, i) {
                        found = true;
                        assert(member(v@, j as int) && lifecycle_of(self.events@, o, j as int) && member(self.events@[j as int].ancestors@, i as int));
                    }
                    j += 1;
                }
                if !found {
                    proof {
                        assert(member(v@, i as int) && lifecycle_of(self.events@, o, i as int));
                        assert(!superseded(self.events@, v@, o, i as int)) by {
                            if superseded(self.events@, v@, o, i as int) {
                                let k = choose|k: int| member(v@, k) && #[trigger] lifecycle_of(self.events@, o, k) && member(self.events@[k].ancestors@, i as int);
                                assert(0 <= k < n);
                            }
                        }
                    }
                    return false;
                }
            }
            i += 1;
        }
        proof {
            assert forall|k: int| member(v@, k) && #[trigger] lifecycle_of(self.events@, o, k) && self.events@[k].action is Delete implies superseded(self.events@, v@, o, k) by {
                assert(0 <= k < n);
            }
        }
        true
    }

    /// The model state of graph `graph` at the closed version `v`: the nodes and
    /// edges created there, in creation order, with their lifecycles.
    pub fn snapshot(&self, graph: u8, v: &Vec<bool>) -> (r: Snapshot)
        ensures
            r.nodes@ == model_nodes(self.events@, graph, v@, self.events@.len() as int),
            r.edges@ == model_edges(self.events@, graph, v@, self.events@.len() as int),
    {
        let mut nodes: Vec<ModelNode> = Vec::new();
        let mut i: usize = 0;
        while i < self.events.len()
            invariant
                i <= self.events@.len(),
                nodes@ == model_nodes(self.events@, graph, v@, i as int),
            decreases self.events@.len() - i,
        {
            if contains(v, i) {
                match &self.events[i].action {
                    Action::CreateNode(g) => {
                        if *g == graph {
                            let id = NodeId { graph, birth: i };
                            let alive = self.alive(v, Object::Node(id));
                            nodes.push(ModelNode { id, alive });
                        }
                    },
                    _ => {},
                }
            }
            i += 1;
        }
        let ghost all_nodes = nodes@;
        let mut edges: Vec<ModelEdge> = Vec::new();
        let mut i: usize = 0;
        while i < self.events.len()
            invariant
                i <= self.events@.len(),
                nodes@ == all_nodes,
                all_nodes == model_nodes(self.events@, graph, v@, self.events@.len() as int),
                edges@ == model_edges(self.events@, graph, v@, i as int),
            decreases self.events@.len() - i,
        {
            if contains(v, i) {
                match &self.events[i].action {
                    Action::CreateEdge { graph: g, source, target } => {
                        if *g == graph {
                            let id = EdgeId { graph, birth: i };
                            let alive = self.alive(v, Object::Edge(id));
                            let sa = node_alive_in(&nodes, *source);
                            let ta = node_alive_in(&nodes, *target);
                            edges.push(ModelEdge { id, source: *source, target: *target, alive, visible: alive && sa && ta });
                        }
                    },
                    _ => {},
                }
            }
            i += 1;
        }
        Snapshot { nodes, edges }
    }
}

/// The nodes of graph `graph` created by the events of `v` below `i`, in creation order.
pub open spec fn model_nodes(events: Seq<Event>, graph: u8, v: Seq<bool>, i: int) -> Seq<ModelNode>
    decreases i,
{
    if i <= 0 {
        seq![]
    } else {
        let rest = model_nodes(events, graph, v, i - 1);
        let k = i - 1;
        if member(v, k) && events[k].action == Action::CreateNode(graph) {
            let id = NodeId { graph, birth: k as usize };
            rest.push(ModelNode { id, alive: model_alive(events, v, Object::Node(id)) })
        } else {
            rest
        }
    }
}

/// Whether the first listing of node `id` is alive; false when it is not listed.
pub open spec fn first_alive(nodes: Seq<ModelNode>, id: NodeId) -> bool
    decreases nodes.len(),
{
    if nodes.len() == 0 {
        false
    } else if nodes[0].id == id {
        nodes[0].alive
    } else {
        first_alive(nodes.drop_first(), id)
    }
}

/// The edges of graph `graph` created by the events of `v` below `i`, in creation
/// order; an edge is visible when it and both its listed endpoints are alive.
pub open spec fn model_edges(events: Seq<Event>, graph: u8, v: Seq<bool>, i: int) -> Seq<ModelEdge>
    decreases i,
{
    if i <= 0 {
        seq![]
    } else {
        let rest = model_edges(events, graph, v, i - 1);
        let k = i - 1;
        let nodes = model_nodes(events, graph, v, events.len() as int);
        match events[k].action {
            Action::CreateEdge { graph: g, source, target } => if member(v, k) && g == graph {
                let id = EdgeId { graph, birth: k as usize };
                let alive = model_alive(events, v, Object::Edge(id));
                rest.push(
                    ModelEdge {
                        id,
                        source,
                        target,
                        alive,
                        visible: alive && first_alive(nodes, source) && first_alive(nodes, target),
                    },
                )
            } else {
                rest
            },
            _ => rest,
        }
    }
}

/// Whether the listed node is alive; false when it is not listed.
fn node_alive_in(nodes: &Vec<ModelNode>, id: NodeId) -> (r: bool)
    ensures
        r == first_alive(nodes@, id),
{
    let mut i: usize = 0;
    proof {
        assert(nodes@.subrange(0, nodes@.len() as int) =~= nodes@);
    }
    while i < nodes.len()
        invariant
            i <= nodes@.len(),
            first_alive(nodes@, id) == first_alive(nodes@.subrange(i as int, nodes@.len() as int), id),
        decreases nodes@.len() - i,
    {
        proof {
            let rest = nodes@.subrange(i as int, nodes@.len() as int);
            assert(rest[0] == nodes@[i as int]);
            assert(rest.drop_first() =~= nodes@.subrange(i + 1, nodes@.len() as int));
        }
        if nodes[i].id == id {
            return nodes[i].alive;
        }
        i += 1;
    }
    proof {
        assert(nodes@.subrange(i as int, nodes@.len() as int).len() == 0);
    }
    false
}

/// Add event `i` to a set, growing it as needed.
pub fn add_event(v: &mut Vec<bool>, i: usize)
    ensures
        member(final(v)@, i as int),
        forall|k: int| k != i ==> (member(final(v)@, k) <==> member(old(v)@, k)),
{
    while v.len() <= i
        invariant
            forall|k: int| member(v@, k) <==> member(old(v)@, k),
        decreases i + 1 - v@.len(),
    {
        v.push(false);
    }
    v.set(i, true);
}

/// A copy of an event set.
pub fn copy_set(v: &Vec<bool>) -> (r: Vec<bool>)
    ensures
        r@ == v@,
{
    let mut r: Vec<bool> = Vec::new();
    let mut i: usize = 0;
    while i < v.len()
        invariant
            i <= v@.len(),
            r@ == v@.subrange(0, i as int),
        decreases v@.len() - i,
    {
        r.push(v[i]);
        i += 1;
        assert(r@ =~= v@.subrange(0, i as int));
    }
    assert(v@.subrange(0, v@.len() as int) =~= v@);
    r
}

} // verus!
