//! The operation log as graph import validation reads it: the logged operations
//! with their identities and containers, the causal DAG of changes, and the
//! version below which history was trimmed (the shallow root).
use vstd::prelude::*;
use crate::ids::ID;
use crate::op::{GraphOp, GraphError, op_valid, op_references};

verus! {

/// One logged operation. It spans the counters `id.counter .. id.counter + len`
/// of its peer; `graph` holds its content when it is a graph operation.
#[derive(Clone, Debug)]
pub struct LoggedOp {
    pub id: ID,
    pub len: i32,
    pub container: u64,
    pub graph: Option<GraphOp>,
}

/// One node of the causal DAG: the counters `start .. end` of one peer, made in
/// one change whose first counter has Lamport clock `lamport` and depends on `deps`.
#[derive(Clone, Debug)]
pub struct DagNode {
    pub peer: u64,
    pub start: i32,
    pub end: i32,
    pub lamport: u32,
    pub deps: Vec<ID>,
}

/// The operation log.
pub struct OpLog {
    pub ops: Vec<LoggedOp>,
    pub dag: Vec<DagNode>,
    /// The shallow root, as a version vector: `(peer, end counter)`.
    pub shallow: Vec<(u64, i32)>,
}

/// A span of imported operations: `(peer, start counter, end counter)`.
pub type ImportedSpan = (u64, i32, i32);

pub open spec fn op_includes(o: LoggedOp, r: ID) -> bool {
    o.id.peer == r.peer && o.id.counter <= r.counter < o.id.counter + o.len
}

/// The index of the first logged operation whose span includes `r`.
pub open spec fn op_index_of(ops: Seq<LoggedOp>, r: ID, i: int) -> bool {
    &&& 0 <= i < ops.len()
    &&& op_includes(ops[i], r)
    &&& forall|j: int| 0 <= j < i ==> !op_includes(#[trigger] ops[j], r)
}

pub open spec fn no_op_includes(ops: Seq<LoggedOp>, r: ID) -> bool {
    forall|j: int| 0 <= j < ops.len() ==> !op_includes(#[trigger] ops[j], r)
}

/// The version vector includes `r`.
pub open spec fn vv_includes(vv: Seq<(u64, i32)>, r: ID) -> bool {
    exists|i: int| 0 <= i < vv.len() && (#[trigger] vv[i]).0 == r.peer && r.counter < vv[i].1
}

/// The operation that a reference names has the kind the reference expects.
pub open spec fn names_expected(graph: Option<GraphOp>, reference: (ID, Option<ID>, bool)) -> bool {
    match (graph, reference.1, reference.2) {
        (Some(GraphOp::CreateNode { id }), None, false) => id.spec_id() == reference.0,
        (Some(GraphOp::CreateEdge { id, .. }), None, true) => id.spec_id() == reference.0,
        (Some(GraphOp::DeleteNode { id }), Some(object), false) => id.spec_id() == object,
        (Some(GraphOp::DeleteEdge { id }), Some(object), true) => id.spec_id() == object,
        _ => false,
    }
}

/// A reference made from a graph operation of `container` names an operation
/// of the same graph, by its first counter, of the expected kind; or it lies
/// below the shallow root.
pub open spec fn reference_ok(log: &OpLog, container: u64, reference: (ID, Option<ID>, bool)) -> bool {
    let r = reference.0;
    if exists|i: int| op_index_of(log.ops@, r, i) {
        let i = choose|i: int| op_index_of(log.ops@, r, i);
        let target = log.ops@[i];
        target.container == container && target.id.counter == r.counter && names_expected(
            target.graph,
            reference,
        )
    } else {
        vv_includes(log.shallow@, r)
    }
}

pub open spec fn node_contains(n: DagNode, x: ID) -> bool {
    n.peer == x.peer && n.start <= x.counter < n.end
}

pub open spec fn in_dag(dag: Seq<DagNode>, x: ID) -> bool {
    exists|i: int| 0 <= i < dag.len() && node_contains(#[trigger] dag[i], x)
}

/// The DAG node that holds `x` (nodes of one peer do not overlap).
pub open spec fn node_of(dag: Seq<DagNode>, x: ID) -> int {
    choose|i: int| 0 <= i < dag.len() && node_contains(#[trigger] dag[i], x)
}

/// The Lamport clock of a counter held by the DAG.
pub open spec fn lamport_of(dag: Seq<DagNode>, x: ID) -> int {
    dag[node_of(dag, x)].lamport + (x.counter - dag[node_of(dag, x)].start)
}

/// The direct causal predecessors of `x`: the previous counter of the same
/// change, or the change's dependencies at its first counter.
pub open spec fn parents(dag: Seq<DagNode>, x: ID) -> Seq<ID> {
    if in_dag(dag, x) {
        let n = dag[node_of(dag, x)];
        if x.counter > n.start {
            seq![ID { peer: x.peer, counter: (x.counter - 1) as i32 }]
        } else {
            n.deps@
        }
    } else {
        seq![]
    }
}

/// `y` is reached from `x` by `k` steps to a direct predecessor.
pub open spec fn walk(dag: Seq<DagNode>, x: ID, y: ID, k: nat) -> bool
    decreases k,
{
    if k == 0 {
        x == y
    } else {
        exists|i: int|
            0 <= i < parents(dag, x).len() && walk(dag, #[trigger] parents(dag, x)[i], y, (k - 1) as nat)
    }
}

/// `y` is a causal ancestor of `x`, or `x` itself, and is held by the DAG.
pub open spec fn ancestor(dag: Seq<DagNode>, x: ID, y: ID) -> bool {
    in_dag(dag, y) && exists|k: nat| walk(dag, x, y, k)
}

/// The operation `id` observed `y`: `y` precedes it causally.
pub open spec fn observed(dag: Seq<DagNode>, id: ID, y: ID) -> bool {
    exists|i: int| 0 <= i < parents(dag, id).len() && ancestor(dag, #[trigger] parents(dag, id)[i], y)
}

impl OpLog {
    /// The DAG is well formed: every node spans at least one counter, nodes of
    /// one peer do not overlap, and every dependency held by the DAG has a
    /// smaller Lamport clock than the change that depends on it.
    pub open spec fn wf(&self) -> bool {
        &&& forall|i: int| 0 <= i < self.dag@.len() ==> (#[trigger] self.dag@[i]).start < self.dag@[i].end
        &&& forall|i: int, j: int|
            0 <= i < self.dag@.len() && 0 <= j < self.dag@.len() && i != j && (#[trigger] self.dag@[i]).peer
                == (#[trigger] self.dag@[j]).peer ==> self.dag@[i].end <= self.dag@[j].start
                || self.dag@[j].end <= self.dag@[i].start
        &&& forall|i: int, k: int|
            0 <= i < self.dag@.len() && 0 <= k < self.dag@[i].deps@.len() && in_dag(
                self.dag@,
                #[trigger] self.dag@[i].deps@[k],
            ) ==> lamport_of(self.dag@, self.dag@[i].deps@[k]) < self.dag@[i].lamport
    }

    /// A graph operation passes import validation: its own identity checks, the
    /// kind and graph of every operation it names, and that it observed every
    /// named operation above the shallow root.
    pub open spec fn graph_op_ok(&self, o: LoggedOp) -> bool {
        let g = o.graph->Some_0;
        let refs = op_references(g);
        &&& op_valid(g, o.id)
        &&& forall|k: int| 0 <= k < refs.len() ==> reference_ok(self, o.container, #[trigger] refs[k])
        &&& forall|k: int|
            0 <= k < refs.len() && !vv_includes(self.shallow@, #[trigger] refs[k].0) ==> observed(
                self.dag@,
                o.id,
                refs[k].0,
            )
    }

    pub open spec fn imported(&self, spans: Seq<ImportedSpan>, i: int) -> bool {
        exists|j: int|
            0 <= j < spans.len() && (#[trigger] spans[j]).0 == self.ops@[i].id.peer && spans[j].1
                <= self.ops@[i].id.counter < spans[j].2
    }

    /// Every imported graph operation passes validation.
    pub open spec fn import_ok(&self, spans: Seq<ImportedSpan>) -> bool {
        forall|i: int|
            0 <= i < self.ops@.len() && self.imported(spans, i) && (#[trigger] self.ops@[i]).graph is Some
                ==> self.graph_op_ok(self.ops@[i])
    }

    /// The first logged operation whose span includes `r`.
    pub fn op_that_includes(&self, r: ID) -> (res: Option<usize>)
        ensures
            res matches Some(i) ==> op_index_of(self.ops@, r, i as int),
            res is None ==> no_op_includes(self.ops@, r),
    {
        let mut i: usize = 0;
        while i < self.ops.len()
            invariant
                i <= self.ops@.len(),
                forall|j: int| 0 <= j < i ==> !op_includes(#[trigger] self.ops@[j], r),
            decreases self.ops@.len() - i,
        {
            let o = &self.ops[i];
            if o.id.peer == r.peer && o.id.counter <= r.counter && (r.counter as i64) < (o.id.counter as i64)
                + (o.len as i64) {
                return Some(i);
            }
            i += 1;
        }
        None
    }

    /// The shallow root includes `r`.
    pub fn shallow_includes(&self, r: ID) -> (res: bool)
        ensures
            res == vv_includes(self.shallow@, r),
    {
        let mut i: usize = 0;
        while i < self.shallow.len()
            invariant
                i <= self.shallow@.len(),
                forall|j: int|
                    0 <= j < i ==> !((#[trigger] self.shallow@[j]).0 == r.peer && r.counter
                        < self.shallow@[j].1),
            decreases self.shallow@.len() - i,
        {
            if self.shallow[i].0 == r.peer && r.counter < self.shallow[i].1 {
                return true;
            }
            i += 1;
        }
        false
    }

    /// Check one reference made from a graph operation of `container`.
    pub fn check_reference(&self, container: u64, reference: &(ID, Option<ID>, bool)) -> (res: bool)
        ensures
            res == reference_ok(self, container, *reference),
    {
        let r = reference.0;
        match self.op_that_includes(r) {
            Some(i) => {
                proof {
                    let c = choose|i: int| op_index_of(self.ops@, r, i);
                    assert(op_index_of(self.ops@, r, i as int));
                    if c != i as int {
                        if c < i as int {
                            assert(!op_includes(self.ops@[c], r));
                        } else {
                            assert(!op_includes(self.ops@[i as int], r));
                        }
                    }
                }
                let target = &self.ops[i];
                if target.container != container || target.id.counter != r.counter {
                    return false;
                }
                match (&target.graph, &reference.1, reference.2) {
                    (Some(GraphOp::CreateNode { id }), None, false) => id.id() == r,
                    (Some(GraphOp::CreateEdge { id, .. }), None, true) => id.id() == r,
                    (Some(GraphOp::DeleteNode { id }), Some(object), false) => id.id() == *object,
                    (Some(GraphOp::DeleteEdge { id }), Some(object), true) => id.id() == *object,
                    _ => false,
                }
            },
            None => {
                proof {
                    if exists|i: int| op_index_of(self.ops@, r, i) {
                        let c = choose|i: int| op_index_of(self.ops@, r, i);
                        assert(!op_includes(self.ops@[c], r));
                    }
                }
                self.shallow_includes(r)
            },
        }
    }
}


/// Every dependency listed by some DAG node, node after node.
pub open spec fn all_deps(dag: Seq<DagNode>) -> Seq<ID>
    decreases dag.len(),
{
    if dag.len() == 0 {
        seq![]
    } else {
        all_deps(dag.drop_last()) + dag.last().deps@
    }
}

/// The number of positions of `e` whose identity `visited` does not hold.
pub open spec fn count_unvisited(e: Seq<ID>, visited: Seq<ID>) -> nat
    decreases e.len(),
{
    if e.len() == 0 {
        0
    } else {
        count_unvisited(e.drop_last(), visited) + if visited.contains(e.last()) {
            0nat
        } else {
            1nat
        }
    }
}

/// `y` is reached from one of `init` by steps to a direct predecessor.
pub open spec fn reached(dag: Seq<DagNode>, init: Seq<ID>, y: ID) -> bool {
    exists|i: int, k: nat| 0 <= i < init.len() && #[trigger] walk(dag, init[i], y, k)
}

pub proof fn lemma_all_deps(dag: Seq<DagNode>, i: int, k: int)
    requires
        0 <= i < dag.len(),
        0 <= k < dag[i].deps@.len(),
    ensures
        all_deps(dag).contains(dag[i].deps@[k]),
    decreases dag.len(),
{
    let x = dag[i].deps@[k];
    if i == dag.len() - 1 {
        let a = all_deps(dag.drop_last());
        assert((a + dag.last().deps@)[a.len() + k] == x);
    } else {
        assert(dag.drop_last()[i] == dag[i]);
        lemma_all_deps(dag.drop_last(), i, k);
        let a = all_deps(dag.drop_last());
        let j = choose|j: int| 0 <= j < a.len() && a[j] == x;
        assert((a + dag.last().deps@)[j] == x);
    }
}

pub proof fn lemma_count_grow(e: Seq<ID>, v: Seq<ID>, x: ID)
    ensures
        count_unvisited(e, v.push(x)) <= count_unvisited(e, v),
        e.contains(x) && !v.contains(x) ==> count_unvisited(e, v.push(x)) < count_unvisited(e, v),
    decreases e.len(),
{
    if e.len() > 0 {
        lemma_count_grow(e.drop_last(), v, x);
        assert(v.contains(e.last()) ==> v.push(x).contains(e.last())) by {
            if v.contains(e.last()) {
                let j = choose|j: int| 0 <= j < v.len() && v[j] == e.last();
                assert(v.push(x)[j] == e.last());
            }
        }
        assert(v.push(x)[v.len() as int] == x);
        if e.contains(x) && !v.contains(x) && e.last() != x {
            let j = choose|j: int| 0 <= j < e.len() && e[j] == x;
            assert(e.drop_last()[j] == x);
        }
    }
}

pub proof fn lemma_node_unique(log: &OpLog, i: int, x: ID)
    requires
        log.wf(),
        0 <= i < log.dag@.len(),
        node_contains(log.dag@[i], x),
    ensures
        in_dag(log.dag@, x),
        node_of(log.dag@, x) == i,
{
    let dag = log.dag@;
    assert(in_dag(dag, x));
    let j = node_of(dag, x);
    if j != i {
        assert(dag[i].peer == dag[j].peer);
    }
}

/// Walking down the counters of one change.
pub proof fn lemma_walk_within(log: &OpLog, n: int, v: ID, c: i32)
    requires
        log.wf(),
        0 <= n < log.dag@.len(),
        node_contains(log.dag@[n], v),
        log.dag@[n].start <= c <= v.counter,
    ensures
        walk(log.dag@, v, ID { peer: v.peer, counter: c }, (v.counter - c) as nat),
    decreases v.counter - c,
{
    let dag = log.dag@;
    if c < v.counter {
        lemma_node_unique(log, n, v);
        let p = ID { peer: v.peer, counter: (v.counter - 1) as i32 };
        lemma_walk_within(log, n, p, c);
        assert(parents(dag, v)[0] == p);
    }
}

pub proof fn lemma_walk_trans(dag: Seq<DagNode>, x: ID, y: ID, z: ID, k: nat, m: nat)
    requires
        walk(dag, x, y, k),
        walk(dag, y, z, m),
    ensures
        walk(dag, x, z, k + m),
    decreases k,
{
    if k > 0 {
        let i = choose|i: int|
            0 <= i < parents(dag, x).len() && walk(dag, #[trigger] parents(dag, x)[i], y, (k - 1) as nat);
        lemma_walk_trans(dag, parents(dag, x)[i], y, z, (k - 1) as nat, m);
        assert(((k + m) - 1) as nat == ((k - 1) as nat + m) as nat);
    }
}

/// A walk from a counter either stays in its change or leaves it through one
/// of the change's dependencies, in fewer steps.
pub proof fn lemma_walk_down(log: &OpLog, v: ID, r: ID, k: nat)
    requires
        log.wf(),
        in_dag(log.dag@, v),
        walk(log.dag@, v, r, k),
    ensures
        ({
            let n = log.dag@[node_of(log.dag@, v)];
            (r.peer == v.peer && n.start <= r.counter <= v.counter) || exists|d: int, j: nat|
                0 <= d < n.deps@.len() && j < k && #[trigger] walk(log.dag@, n.deps@[d], r, j)
        }),
    decreases k,
{
    let dag = log.dag@;
    let ni = node_of(dag, v);
    let n = dag[ni];
    if k > 0 {
        let i = choose|i: int|
            0 <= i < parents(dag, v).len() && walk(dag, #[trigger] parents(dag, v)[i], r, (k - 1) as nat);
        let p = parents(dag, v)[i];
        if v.counter > n.start {
            assert(node_contains(n, p));
            lemma_node_unique(log, ni, p);
            lemma_walk_down(log, p, r, (k - 1) as nat);
            if !(r.peer == p.peer && n.start <= r.counter <= p.counter) {
                let (d, j) = choose|d: int, j: nat|
                    0 <= d < n.deps@.len() && j < (k - 1) as nat && #[trigger] walk(dag, n.deps@[d], r, j);
                assert(walk(dag, n.deps@[d], r, j) && j < k);
            }
        } else {
            assert(walk(dag, n.deps@[i], r, (k - 1) as nat));
        }
    }
}

/// Lamport clocks strictly decrease along a walk that ends in the DAG.
pub proof fn lemma_walk_lamport(log: &OpLog, x: ID, y: ID, k: nat)
    requires
        log.wf(),
        walk(log.dag@, x, y, k),
        in_dag(log.dag@, y),
        k > 0,
    ensures
        in_dag(log.dag@, x),
        lamport_of(log.dag@, y) < lamport_of(log.dag@, x),
    decreases k,
{
    let dag = log.dag@;
    let i = choose|i: int|
        0 <= i < parents(dag, x).len() && walk(dag, #[trigger] parents(dag, x)[i], y, (k - 1) as nat);
    let p = parents(dag, x)[i];
    assert(in_dag(dag, x));
    let ni = node_of(dag, x);
    let n = dag[ni];
    if k > 1 {
        lemma_walk_lamport(log, p, y, (k - 1) as nat);
    }
    assert(in_dag(dag, p));
    if x.counter > n.start {
        assert(node_contains(n, p));
        lemma_node_unique(log, ni, p);
    } else {
        assert(n.deps@[i] == p);
        assert(lamport_of(dag, n.deps@[i]) < dag[ni].lamport);
    }
}

/// A visited counter `v` has been explored: no remaining identity lies among
/// the counters of its change up to `v`, and either no remaining identity can
/// precede the change (all have a Lamport clock at least the change's) or every
/// dependency of the change is on the stack or visited.
pub open spec fn visit_done(log: &OpLog, v: ID, visited: Seq<ID>, remaining: Seq<ID>, stack: Seq<ID>) -> bool {
    let n = log.dag@[node_of(log.dag@, v)];
    &&& forall|r: ID|
        #![trigger remaining.contains(r)]
        remaining.contains(r) ==> !(r.peer == v.peer && n.start <= r.counter <= v.counter)
    &&& (forall|r: ID|
        #![trigger remaining.contains(r)]
        remaining.contains(r) ==> in_dag(log.dag@, r) && lamport_of(log.dag@, r) >= n.lamport) || (forall|
        d: int,
    |
        0 <= d < n.deps@.len() ==> stack.contains(#[trigger] n.deps@[d]) || visited.contains(n.deps@[d]))
}

/// Every visited counter held by the DAG has been explored.
pub open spec fn search_closed(log: &OpLog, visited: Seq<ID>, remaining: Seq<ID>, stack: Seq<ID>) -> bool {
    forall|v: ID|
        #![trigger visited.contains(v)]
        visited.contains(v) && in_dag(log.dag@, v) ==> visit_done(log, v, visited, remaining, stack)
}

/// One step of the search keeps it closed: the top of the stack is popped and
/// marked visited, identities may leave `remaining`, and entries may be pushed.
pub proof fn lemma_closed_step(
    log: &OpLog,
    visited: Seq<ID>,
    remaining: Seq<ID>,
    stack: Seq<ID>,
    tip: ID,
    visited2: Seq<ID>,
    remaining2: Seq<ID>,
    stack2: Seq<ID>,
)
    requires
        search_closed(log, visited, remaining, stack),
        stack.len() > 0,
        tip == stack.last(),
        forall|x: ID| #![trigger visited2.contains(x)] visited2.contains(x) <==> visited.contains(x) || x == tip,
        forall|r: ID| #![trigger remaining2.contains(r)] remaining2.contains(r) ==> remaining.contains(r),
        forall|x: ID| #![trigger stack.drop_last().contains(x)] stack.drop_last().contains(x) ==> stack2.contains(x),
        in_dag(log.dag@, tip) && !visited.contains(tip) ==> visit_done(log, tip, visited2, remaining2, stack2),
    ensures
        search_closed(log, visited2, remaining2, stack2),
        forall|x: ID| stack.contains(x) ==> #[trigger] stack2.contains(x) || visited2.contains(x),
{
    assert forall|x: ID| stack.contains(x) implies #[trigger] stack2.contains(x) || visited2.contains(x) by {
        if x != tip {
            let j = choose|j: int| 0 <= j < stack.len() && stack[j] == x;
            assert(stack.drop_last()[j] == x);
            assert(stack.drop_last().contains(x));
        } else {
            assert(visited2.contains(x));
        }
    }
    assert forall|v: ID| #![trigger visited2.contains(v)] visited2.contains(v) && in_dag(log.dag@, v) implies visit_done(
        log,
        v,
        visited2,
        remaining2,
        stack2,
    ) by {
        if visited.contains(v) {
            let n = log.dag@[node_of(log.dag@, v)];
            assert(visit_done(log, v, visited, remaining, stack));
            if !(forall|r: ID|
                #![trigger remaining.contains(r)]
                remaining.contains(r) ==> in_dag(log.dag@, r) && lamport_of(log.dag@, r) >= n.lamport) {
                assert forall|d: int| 0 <= d < n.deps@.len() implies stack2.contains(#[trigger] n.deps@[d])
                    || visited2.contains(n.deps@[d]) by {
                    let x = n.deps@[d];
                    assert(stack.contains(x) || visited.contains(x));
                    if visited.contains(x) {
                        assert(visited2.contains(x));
                    }
                }
            }
        }
    }
}

pub proof fn lemma_no_escape(log: &OpLog, visited: Seq<ID>, remaining: Seq<ID>, v: ID, r: ID, k: nat)
    requires
        log.wf(),
        search_closed(log, visited, remaining, seq![]),
        visited.contains(v),
        walk(log.dag@, v, r, k),
        in_dag(log.dag@, r),
    ensures
        !remaining.contains(r),
    decreases k,
{
    let dag = log.dag@;
    if remaining.contains(r) {
        if !in_dag(dag, v) {
            if k > 0 {
                let i = choose|i: int|
                    0 <= i < parents(dag, v).len() && walk(
                        dag,
                        #[trigger] parents(dag, v)[i],
                        r,
                        (k - 1) as nat,
                    );
            }
        } else {
            let n = dag[node_of(dag, v)];
            lemma_walk_down(log, v, r, k);
            if !(r.peer == v.peer && n.start <= r.counter <= v.counter) {
                let (d, j) = choose|d: int, j: nat|
                    0 <= d < n.deps@.len() && j < k && #[trigger] walk(dag, n.deps@[d], r, j);
                let dep = n.deps@[d];
                if forall|x: ID|
                    #![trigger remaining.contains(x)]
                    remaining.contains(x) ==> in_dag(dag, x) && lamport_of(dag, x) >= n.lamport {
                    assert(lamport_of(dag, r) >= n.lamport);
                    if j == 0 {
                        assert(lamport_of(dag, dep) < n.lamport);
                    } else {
                        lemma_walk_lamport(log, dep, r, j);
                        assert(lamport_of(dag, dep) < n.lamport);
                    }
                } else {
                    assert(seq![].contains(dep) || visited.contains(dep));
                    lemma_no_escape(log, visited, remaining, dep, r, j);
                }
            }
        }
    }
}

impl OpLog {
    /// The DAG node holding `x`.
    pub fn node_index(&self, x: ID) -> (res: Option<usize>)
        requires
            self.wf(),
        ensures
            res matches Some(i) ==> i < self.dag@.len() && node_contains(self.dag@[i as int], x) && node_of(
                self.dag@,
                x,
            ) == i,
            res is None ==> !in_dag(self.dag@, x),
    {
        let mut i: usize = 0;
        while i < self.dag.len()
            invariant
                self.wf(),
                i <= self.dag@.len(),
                forall|j: int| 0 <= j < i ==> !node_contains(#[trigger] self.dag@[j], x),
            decreases self.dag@.len() - i,
        {
            let n = &self.dag[i];
            if n.peer == x.peer && n.start <= x.counter && x.counter < n.end {
                proof {
                    lemma_node_unique(self, i as int, x);
                }
                return Some(i);
            }
            i += 1;
        }
        None
    }

    /// The direct causal predecessors of `x`.
    pub fn parents_of(&self, x: ID) -> (res: Vec<ID>)
        requires
            self.wf(),
        ensures
            res@ == parents(self.dag@, x),
    {
        match self.node_index(x) {
            None => Vec::new(),
            Some(i) => {
                let n = &self.dag[i];
                if x.counter > n.start {
                    let mut v: Vec<ID> = Vec::new();
                    v.push(ID { peer: x.peer, counter: x.counter - 1 });
                    proof {
                        assert(v@ =~= parents(self.dag@, x));
                    }
                    v
                } else {
                    let mut v: Vec<ID> = Vec::new();
                    let mut k: usize = 0;
                    while k < n.deps.len()
                        invariant
                            k <= n.deps@.len(),
                            v@ == n.deps@.subrange(0, k as int),
                        decreases n.deps@.len() - k,
                    {
                        v.push(n.deps[k]);
                        k += 1;
                        proof {
                            assert(v@ =~= n.deps@.subrange(0, k as int));
                        }
                    }
                    proof {
                        assert(v@ =~= n.deps@);
                    }
                    v
                }
            },
        }
    }

    /// The Lamport clock of `x`, when the DAG holds it.
    pub fn lamport_at(&self, x: ID) -> (res: Option<i64>)
        requires
            self.wf(),
        ensures
            res matches Some(l) ==> in_dag(self.dag@, x) && l == lamport_of(self.dag@, x),
            res is None ==> !in_dag(self.dag@, x),
    {
        match self.node_index(x) {
            None => None,
            Some(i) => {
                let n = &self.dag[i];
                Some(n.lamport as i64 + (x.counter as i64 - n.start as i64))
            },
        }
    }

    /// Every identity of `remaining` is held by the DAG with a Lamport clock of at least `lamport`.
    fn all_at_or_after(&self, remaining: &Vec<ID>, lamport: u32) -> (res: bool)
        requires
            self.wf(),
        ensures
            res == (forall|r: ID|
                #![trigger remaining@.contains(r)]
                remaining@.contains(r) ==> in_dag(self.dag@, r) && lamport_of(self.dag@, r) >= lamport),
    {
        let mut i: usize = 0;
        while i < remaining.len()
            invariant
                self.wf(),
                i <= remaining@.len(),
                forall|j: int|
                    0 <= j < i ==> in_dag(self.dag@, #[trigger] remaining@[j]) && lamport_of(self.dag@, remaining@[j])
                        >= lamport,
            decreases remaining@.len() - i,
        {
            match self.lamport_at(remaining[i]) {
                Some(l) => {
                    if l < lamport as i64 {
                        proof {
                            assert(remaining@.contains(remaining@[i as int]));
                        }
                        return false;
                    }
                },
                None => {
                    proof {
                        assert(remaining@.contains(remaining@[i as int]));
                    }
                    return false;
                },
            }
            i += 1;
        }
        proof {
            assert forall|r: ID| #![trigger remaining@.contains(r)] remaining@.contains(r) implies in_dag(
                self.dag@,
                r,
            ) && lamport_of(self.dag@, r) >= lamport by {
                let j = choose|j: int| 0 <= j < remaining@.len() && remaining@[j] == r;
            }
        }
        true
    }
}

/// `remaining` without the counters `start ..= tip` of `peer`.
fn drop_range(remaining: Vec<ID>, peer: u64, start: i32, tip: i32) -> (res: Vec<ID>)
    ensures
        forall|r: ID|
            #![trigger res@.contains(r)]
            res@.contains(r) <==> remaining@.contains(r) && !(r.peer == peer && start <= r.counter <= tip),
{
    let mut out: Vec<ID> = Vec::new();
    let mut i: usize = 0;
    while i < remaining.len()
        invariant
            i <= remaining@.len(),
            forall|r: ID|
                #![trigger out@.contains(r)]
                out@.contains(r) <==> (exists|j: int| 0 <= j < i && remaining@[j] == r) && !(r.peer == peer
                    && start <= r.counter <= tip),
        decreases remaining@.len() - i,
    {
        let r = remaining[i];
        let ghost old_out = out@;
        if !(r.peer == peer && start <= r.counter && r.counter <= tip) {
            out.push(r);
            proof {
                assert forall|x: ID| #![trigger out@.contains(x)] out@.contains(x) <==> (exists|j: int|
                    0 <= j < i + 1 && remaining@[j] == x) && !(x.peer == peer && start <= x.counter <= tip) by {
                    if out@.contains(x) {
                        let q = choose|q: int| 0 <= q < out@.len() && out@[q] == x;
                        if q < old_out.len() {
                            assert(old_out[q] == x);
                            assert(old_out.contains(x));
                        }
                    }
                    if (exists|j: int| 0 <= j < i + 1 && remaining@[j] == x) && !(x.peer == peer && start
                        <= x.counter <= tip) {
                        if x != r {
                            let j = choose|j: int| 0 <= j < i + 1 && remaining@[j] == x;
                            assert(j < i);
                            assert(old_out.contains(x));
                            let q = choose|q: int| 0 <= q < old_out.len() && old_out[q] == x;
                            assert(out@[q] == x);
                        } else {
                            assert(out@[old_out.len() as int] == x);
                        }
                    }
                }
            }
        } else {
            proof {
                assert forall|x: ID| #![trigger out@.contains(x)] out@.contains(x) <==> (exists|j: int|
                    0 <= j < i + 1 && remaining@[j] == x) && !(x.peer == peer && start <= x.counter <= tip) by {
                    if (exists|j: int| 0 <= j < i + 1 && remaining@[j] == x) && !(x.peer == peer && start
                        <= x.counter <= tip) {
                        let j = choose|j: int| 0 <= j < i + 1 && remaining@[j] == x;
                        assert(j < i);
                    }
                }
            }
        }
        i += 1;
    }
    proof {
        assert forall|r: ID| #![trigger out@.contains(r)] out@.contains(r) <==> remaining@.contains(r) && !(r.peer
            == peer && start <= r.counter <= tip) by {
            if remaining@.contains(r) {
                let j = choose|j: int| 0 <= j < remaining@.len() && remaining@[j] == r;
            }
        }
    }
    out
}

fn vec_has(v: &Vec<ID>, x: ID) -> (res: bool)
    ensures
        res == v@.contains(x),
{
    let mut i: usize = 0;
    while i < v.len()
        invariant
            i <= v@.len(),
            forall|j: int| 0 <= j < i ==> v@[j] != x,
        decreases v@.len() - i,
    {
        if v[i] == x {
            proof {
                assert(v@[i as int] == x);
            }
            return true;
        }
        i += 1;
    }
    false
}

impl OpLog {
    /// Search the causal past of operation `id` for every identity of `refs`,
    /// depth first from its direct predecessors, skipping visited counters and
    /// not descending below a change that no remaining identity can precede.
    pub fn observes_all(&self, id: ID, refs: Vec<ID>) -> (res: bool)
        requires
            self.wf(),
        ensures
            res == forall|k: int| 0 <= k < refs@.len() ==> observed(self.dag@, id, #[trigger] refs@[k]),
    {
        let ghost dag = self.dag@;
        let ghost refsg = refs@;
        let init = self.parents_of(id);
        let ghost initg = init@;
        let ghost e = initg + all_deps(dag);
        let mut stack = init;
        let mut visited: Vec<ID> = Vec::new();
        let mut remaining = refs;
        proof {
            assert forall|x: ID| #![trigger stack@.contains(x)] stack@.contains(x) implies e.contains(x) && reached(
                dag,
                initg,
                x,
            ) by {
                let i = choose|i: int| 0 <= i < stack@.len() && stack@[i] == x;
                assert(e[i] == x);
                assert(walk(dag, initg[i], x, 0));
            }
            assert forall|i: int| 0 <= i < initg.len() implies stack@.contains(#[trigger] initg[i]) || visited@.contains(
                initg[i],
            ) by {
                assert(stack@[i] == initg[i]);
            }
            assert forall|k: int| 0 <= k < refsg.len() implies remaining@.contains(#[trigger] refsg[k]) || observed(
                dag,
                id,
                refsg[k],
            ) by {
                assert(remaining@[k] == refsg[k]);
            }
        }
        while remaining.len() > 0
            invariant
                self.wf(),
                dag == self.dag@,
                refsg == refs@,
                initg == parents(dag, id),
                e == initg + all_deps(dag),
                forall|x: ID|
                    #![trigger stack@.contains(x)]
                    stack@.contains(x) ==> e.contains(x) && reached(dag, initg, x),
                forall|r: ID| #![trigger remaining@.contains(r)] remaining@.contains(r) ==> refsg.contains(r),
                forall|k: int|
                    0 <= k < refsg.len() ==> remaining@.contains(#[trigger] refsg[k]) || observed(dag, id, refsg[k]),
                forall|i: int| 0 <= i < initg.len() ==> stack@.contains(#[trigger] initg[i]) || visited@.contains(initg[i]),
                search_closed(self, visited@, remaining@, stack@),
            decreases count_unvisited(e, visited@), stack@.len(),
        {
            let ghost old_stack = stack@;
            let ghost old_visited = visited@;
            let ghost old_remaining = remaining@;
            let popped = stack.pop();
            let tip = match popped {
                Some(t) => t,
                None => {
                    proof {
                        let r = remaining@[0];
                        assert(remaining@.contains(r));
                        assert(refsg.contains(r));
                        let k = choose|k: int| 0 <= k < refsg.len() && refsg[k] == r;
                        if observed(dag, id, r) {
                            let i = choose|i: int|
                                0 <= i < parents(dag, id).len() && ancestor(dag, #[trigger] parents(dag, id)[i], r);
                            let kk = choose|kk: nat| walk(dag, initg[i], r, kk);
                            assert(stack@.contains(initg[i]) || visited@.contains(initg[i]));
                            assert(stack@ =~= seq![]);
                            lemma_no_escape(self, visited@, remaining@, initg[i], r, kk);
                        }
                        assert(!observed(dag, id, refsg[k]));
                        assert(!(forall|k: int| 0 <= k < refsg.len() ==> observed(dag, id, #[trigger] refsg[k])));
                    }
                    return false;
                },
            };
            proof {
                assert(old_stack.contains(tip)) by {
                    assert(old_stack[old_stack.len() - 1] == tip);
                }
                assert(stack@ =~= old_stack.drop_last());
            }
            if vec_has(&visited, tip) {
                proof {
                    lemma_closed_step(self, old_visited, old_remaining, old_stack, tip, visited@, remaining@, stack@);
                    assert forall|x: ID| #![trigger stack@.contains(x)] stack@.contains(x) implies e.contains(x)
                        && reached(dag, initg, x) by {
                        let j = choose|j: int| 0 <= j < stack@.len() && stack@[j] == x;
                        assert(old_stack[j] == x);
                        assert(old_stack.contains(x));
                    }
                    assert forall|i: int| 0 <= i < initg.len() implies stack@.contains(#[trigger] initg[i])
                        || visited@.contains(initg[i]) by {
                        assert(old_stack.contains(initg[i]) || old_visited.contains(initg[i]));
                        if old_stack.contains(initg[i]) {
                            assert(stack@.contains(initg[i]) || visited@.contains(initg[i]));
                        }
                    }
                }
                continue;
            }
            visited.push(tip);
            proof {
                lemma_count_grow(e, old_visited, tip);
                assert forall|x: ID| #![trigger visited@.contains(x)] visited@.contains(x) <==> old_visited.contains(x)
                    || x == tip by {
                    if visited@.contains(x) {
                        let j = choose|j: int| 0 <= j < visited@.len() && visited@[j] == x;
                        if j < old_visited.len() {
                            assert(old_visited[j] == x);
                        }
                    }
                    if old_visited.contains(x) {
                        let j = choose|j: int| 0 <= j < old_visited.len() && old_visited[j] == x;
                        assert(visited@[j] == x);
                    }
                    if x == tip {
                        assert(visited@[old_visited.len() as int] == x);
                    }
                }
            }
            let found = self.node_index(tip);
            match found {
                None => {
                    proof {
                        lemma_closed_step(self, old_visited, old_remaining, old_stack, tip, visited@, remaining@, stack@);
                        self.lemma_search_stack_kept(old_stack, stack@, e, initg);
                        assert forall|i: int| 0 <= i < initg.len() implies stack@.contains(#[trigger] initg[i])
                            || visited@.contains(initg[i]) by {
                            assert(old_stack.contains(initg[i]) || old_visited.contains(initg[i]));
                            if old_stack.contains(initg[i]) {
                                assert(stack@.contains(initg[i]) || visited@.contains(initg[i]));
                            }
                        }
                    }
                    continue;
                },
                Some(ni) => {
                    let node = &self.dag[ni];
                    let ghost reach_tip = reached(dag, initg, tip);
                    proof {
                        assert(reach_tip);
                    }
                    remaining = drop_range(remaining, node.peer, node.start, tip.counter);
                    proof {
                        self.lemma_dropped_observed(id, initg, ni as int, tip, old_remaining, remaining@, refsg);
                    }
                    let ghost mid_stack = stack@;
                    if !self.all_at_or_after(&remaining, node.lamport) {
                        let mut k: usize = 0;
                        while k < node.deps.len()
                            invariant
                                self.wf(),
                                dag == self.dag@,
                                ni < dag.len(),
                                node == dag[ni as int],
                                k <= node.deps@.len(),
                                stack@ == mid_stack + node.deps@.subrange(0, k as int),
                            decreases node.deps@.len() - k,
                        {
                            stack.push(node.deps[k]);
                            k += 1;
                            proof {
                                assert(stack@ =~= mid_stack + node.deps@.subrange(0, k as int));
                            }
                        }
                        proof {
                            assert(stack@ =~= mid_stack + node.deps@);
                        }
                    }
                    proof {
                        self.lemma_push_deps(ni as int, tip, initg, e, mid_stack, stack@, old_stack);
                        assert forall|x: ID| #![trigger (old_stack.drop_last()).contains(x)] old_stack.drop_last().contains(
                            x,
                        ) implies stack@.contains(x) by {
                            let j = choose|j: int| 0 <= j < mid_stack.len() && mid_stack[j] == x;
                            assert(stack@[j] == x);
                        }
                        lemma_node_unique(self, ni as int, tip);
                        assert(visit_done(self, tip, visited@, remaining@, stack@)) by {
                            let n = dag[ni as int];
                            if !(forall|r: ID|
                                #![trigger remaining@.contains(r)]
                                remaining@.contains(r) ==> in_dag(dag, r) && lamport_of(dag, r) >= n.lamport) {
                                assert forall|d: int| 0 <= d < n.deps@.len() implies stack@.contains(
                                    #[trigger] n.deps@[d],
                                ) || visited@.contains(n.deps@[d]) by {
                                    assert(stack@[mid_stack.len() + d] == n.deps@[d]);
                                }
                            }
                        }
                        lemma_closed_step(self, old_visited, old_remaining, old_stack, tip, visited@, remaining@, stack@);
                        assert forall|i: int| 0 <= i < initg.len() implies stack@.contains(#[trigger] initg[i])
                            || visited@.contains(initg[i]) by {
                            assert(old_stack.contains(initg[i]) || old_visited.contains(initg[i]));
                            if old_stack.contains(initg[i]) {
                                assert(stack@.contains(initg[i]) || visited@.contains(initg[i]));
                            }
                        }
                    }
                },
            }
        }
        proof {
            assert forall|k: int| 0 <= k < refsg.len() implies observed(dag, id, #[trigger] refsg[k]) by {
                assert(remaining@.len() == 0);
                if remaining@.contains(refsg[k]) {
                    let j = choose|j: int| 0 <= j < remaining@.len() && remaining@[j] == refsg[k];
                }
            }
        }
        true
    }

    proof fn lemma_search_stack_kept(&self, old_stack: Seq<ID>, stack: Seq<ID>, e: Seq<ID>, initg: Seq<ID>)
        requires
            old_stack.len() > 0,
            stack == old_stack.drop_last(),
            forall|x: ID| #![trigger old_stack.contains(x)] old_stack.contains(x) ==> e.contains(x) && reached(self.dag@, initg, x),
        ensures
            forall|x: ID| #![trigger stack.contains(x)] stack.contains(x) ==> e.contains(x) && reached(self.dag@, initg, x),
    {
        assert forall|x: ID| #![trigger stack.contains(x)] stack.contains(x) implies e.contains(x) && reached(
            self.dag@,
            initg,
            x,
        ) by {
            let j = choose|j: int| 0 <= j < stack.len() && stack[j] == x;
            assert(old_stack[j] == x);
            assert(old_stack.contains(x));
        }
    }

    /// The counters dropped while visiting `tip` were observed.
    proof fn lemma_dropped_observed(
        &self,
        id: ID,
        initg: Seq<ID>,
        ni: int,
        tip: ID,
        old_remaining: Seq<ID>,
        remaining: Seq<ID>,
        refsg: Seq<ID>,
    )
        requires
            self.wf(),
            initg == parents(self.dag@, id),
            0 <= ni < self.dag@.len(),
            node_contains(self.dag@[ni], tip),
            reached(self.dag@, initg, tip),
            forall|r: ID|
                #![trigger remaining.contains(r)]
                remaining.contains(r) <==> old_remaining.contains(r) && !(r.peer == self.dag@[ni].peer
                    && self.dag@[ni].start <= r.counter <= tip.counter),
            forall|k: int|
                0 <= k < refsg.len() ==> old_remaining.contains(#[trigger] refsg[k]) || observed(self.dag@, id, refsg[k]),
            forall|r: ID| #![trigger old_remaining.contains(r)] old_remaining.contains(r) ==> refsg.contains(r),
        ensures
            forall|k: int|
                0 <= k < refsg.len() ==> remaining.contains(#[trigger] refsg[k]) || observed(self.dag@, id, refsg[k]),
            forall|r: ID| #![trigger remaining.contains(r)] remaining.contains(r) ==> refsg.contains(r),
    {
        let dag = self.dag@;
        let n = dag[ni];
        assert forall|k: int| 0 <= k < refsg.len() implies remaining.contains(#[trigger] refsg[k]) || observed(
            dag,
            id,
            refsg[k],
        ) by {
            let r = refsg[k];
            if !remaining.contains(r) && !observed(dag, id, r) {
                assert(old_remaining.contains(r));
                assert(r.peer == n.peer && n.start <= r.counter <= tip.counter);
                let (i, kk) = choose|i: int, kk: nat| 0 <= i < initg.len() && #[trigger] walk(dag, initg[i], tip, kk);
                lemma_walk_within(self, ni, tip, r.counter);
                assert(ID { peer: tip.peer, counter: r.counter } == r);
                lemma_walk_trans(dag, initg[i], tip, r, kk, (tip.counter - r.counter) as nat);
                assert(node_contains(dag[ni], r));
                assert(in_dag(dag, r));
                assert(ancestor(dag, initg[i], r));
            }
        }
    }

    /// Pushing the dependencies of `tip`'s change keeps every stack entry a
    /// candidate reached from the operation's predecessors.
    proof fn lemma_push_deps(
        &self,
        ni: int,
        tip: ID,
        initg: Seq<ID>,
        e: Seq<ID>,
        mid_stack: Seq<ID>,
        stack: Seq<ID>,
        old_stack: Seq<ID>,
    )
        requires
            self.wf(),
            0 <= ni < self.dag@.len(),
            node_contains(self.dag@[ni], tip),
            reached(self.dag@, initg, tip),
            e == initg + all_deps(self.dag@),
            old_stack.len() > 0,
            mid_stack == old_stack.drop_last(),
            stack == mid_stack || stack == mid_stack + self.dag@[ni].deps@,
            forall|x: ID| #![trigger old_stack.contains(x)] old_stack.contains(x) ==> e.contains(x) && reached(self.dag@, initg, x),
        ensures
            forall|x: ID| #![trigger stack.contains(x)] stack.contains(x) ==> e.contains(x) && reached(self.dag@, initg, x),
    {
        let dag = self.dag@;
        let n = dag[ni];
        assert forall|x: ID| #![trigger stack.contains(x)] stack.contains(x) implies e.contains(x) && reached(dag, initg, x) by {
            let j = choose|j: int| 0 <= j < stack.len() && stack[j] == x;
            if j < mid_stack.len() {
                assert(old_stack[j] == x);
                assert(old_stack.contains(x));
            } else {
                let d = j - mid_stack.len();
                assert(n.deps@[d] == x);
                lemma_all_deps(dag, ni, d);
                let q = choose|q: int| 0 <= q < all_deps(dag).len() && all_deps(dag)[q] == x;
                assert(e[initg.len() + q] == x);
                let (i, kk) = choose|i: int, kk: nat| 0 <= i < initg.len() && #[trigger] walk(dag, initg[i], tip, kk);
                let ns = ID { peer: tip.peer, counter: n.start };
                lemma_walk_within(self, ni, tip, n.start);
                lemma_node_unique(self, ni, ns);
                assert(parents(dag, ns) == n.deps@);
                assert(parents(dag, ns)[d] == x);
                assert(walk(dag, x, x, 0));
                assert(walk(dag, ns, x, 1));
                lemma_walk_trans(dag, tip, ns, x, (tip.counter - n.start) as nat, 1);
                lemma_walk_trans(dag, initg[i], tip, x, kk, ((tip.counter - n.start) + 1) as nat);
            }
        }
    }
}

/// The delete tag `d` names a delete of `object` (an edge when `is_edge`, else a
/// node) made in graph `container`: the first logged operation holding `d` is that
/// delete and starts at `d`; or no logged operation holds `d` and it lies below the
/// shallow root.
pub open spec fn tag_names_delete(log: &OpLog, container: u64, d: ID, object: ID, is_edge: bool) -> bool {
    ||| exists|x: int|
        #[trigger] op_index_of(log.ops@, d, x) && log.ops@[x].container == container && log.ops@[x].id.counter
            == d.counter && match log.ops@[x].graph {
            Some(GraphOp::DeleteEdge { id }) => is_edge && id.spec_id() == object,
            Some(GraphOp::DeleteNode { id }) => !is_edge && id.spec_id() == object,
            _ => false,
        }
    ||| no_op_includes(log.ops@, d) && vv_includes(log.shallow@, d)
}

/// `r` names the creation of `r` itself (an edge when `is_edge`, else a node)
/// made in graph `container`: the first logged operation holding `r` is that
/// creation; or no logged operation holds `r` and it lies below the shallow root.
pub open spec fn names_creation(log: &OpLog, container: u64, r: ID, is_edge: bool) -> bool {
    ||| exists|x: int|
        #[trigger] op_index_of(log.ops@, r, x) && log.ops@[x].container == container && log.ops@[x].id.counter
            == r.counter && match log.ops@[x].graph {
            Some(GraphOp::CreateEdge { id, .. }) => is_edge && id.spec_id() == r,
            Some(GraphOp::CreateNode { id }) => !is_edge && id.spec_id() == r,
            _ => false,
        }
    ||| no_op_includes(log.ops@, r) && vv_includes(log.shallow@, r)
}

/// Operation `o` observed `r`, where `r` lies above the shallow root.
pub open spec fn seen(log: &OpLog, o: LoggedOp, r: ID) -> bool {
    !vv_includes(log.shallow@, r) ==> observed(log.dag@, o.id, r)
}

/// What a graph operation names exists as named, in its own graph (or below the
/// shallow root), and was observed by it: an edge's endpoints are node creations;
/// a delete, order write or restore names the creation of its object; and every
/// delete tag of a restore is a delete of that same object.
pub open spec fn graph_refs_ok(log: &OpLog, o: LoggedOp) -> bool {
    let c = o.container;
    match o.graph {
        Some(GraphOp::CreateEdge { source, target, .. }) => names_creation(log, c, source.spec_id(), false) && seen(
            log,
            o,
            source.spec_id(),
        ) && names_creation(log, c, target.spec_id(), false) && seen(log, o, target.spec_id()),
        Some(GraphOp::DeleteNode { id }) => names_creation(log, c, id.spec_id(), false) && seen(log, o, id.spec_id()),
        Some(GraphOp::DeleteEdge { id }) => names_creation(log, c, id.spec_id(), true) && seen(log, o, id.spec_id()),
        Some(GraphOp::SetEdgeOrder { id, .. }) => names_creation(log, c, id.spec_id(), true) && seen(log, o, id.spec_id()),
        Some(GraphOp::RestoreNode { id, deletes }) => names_creation(log, c, id.spec_id(), false) && seen(log, o, id.spec_id())
            && forall|k: int|
            0 <= k < deletes@.len() ==> tag_names_delete(log, c, #[trigger] deletes@[k], id.spec_id(), false) && seen(
                log,
                o,
                deletes@[k],
            ),
        Some(GraphOp::RestoreEdge { id, deletes }) => names_creation(log, c, id.spec_id(), true) && seen(log, o, id.spec_id())
            && forall|k: int|
            0 <= k < deletes@.len() ==> tag_names_delete(log, c, #[trigger] deletes@[k], id.spec_id(), true) && seen(
                log,
                o,
                deletes@[k],
            ),
        _ => true,
    }
}

/// An imported graph operation passes validation only if everything it names is
/// what it names it as: an edge's endpoints are node creations, a delete, order
/// write or restore names the creation of its own object, and every delete tag of
/// a restore is a delete of that same edge (or node); each in the operation's own
/// graph or below the shallow root, and observed by the operation above it.
pub proof fn law_import_references(log: &OpLog, spans: Seq<ImportedSpan>, i: int)
    requires
        log.import_ok(spans),
        0 <= i < log.ops@.len(),
        log.imported(spans, i),
        log.ops@[i].graph is Some,
    ensures
        graph_refs_ok(log, log.ops@[i]),
{
    let o = log.ops@[i];
    assert(log.graph_op_ok(o));
    let refs = op_references(o.graph->Some_0);
    match o.graph->Some_0 {
        GraphOp::CreateEdge { source, target, .. } => {
            lemma_creation_ref(log, o, refs, 0, source.spec_id(), false);
            lemma_creation_ref(log, o, refs, 1, target.spec_id(), false);
        },
        GraphOp::DeleteNode { id } => {
            lemma_creation_ref(log, o, refs, 0, id.spec_id(), false);
        },
        GraphOp::DeleteEdge { id } => {
            lemma_creation_ref(log, o, refs, 0, id.spec_id(), true);
        },
        GraphOp::SetEdgeOrder { id, .. } => {
            lemma_creation_ref(log, o, refs, 0, id.spec_id(), true);
        },
        GraphOp::RestoreEdge { id, deletes } => {
            lemma_creation_ref(log, o, refs, 0, id.spec_id(), true);
            assert forall|k: int| 0 <= k < deletes@.len() implies tag_names_delete(
                log,
                o.container,
                #[trigger] deletes@[k],
                id.spec_id(),
                true,
            ) && seen(log, o, deletes@[k]) by {
                lemma_tag_ref(log, o, refs, k + 1, deletes@[k], id.spec_id(), true);
            }
        },
        GraphOp::RestoreNode { id, deletes } => {
            lemma_creation_ref(log, o, refs, 0, id.spec_id(), false);
            assert forall|k: int| 0 <= k < deletes@.len() implies tag_names_delete(
                log,
                o.container,
                #[trigger] deletes@[k],
                id.spec_id(),
                false,
            ) && seen(log, o, deletes@[k]) by {
                lemma_tag_ref(log, o, refs, k + 1, deletes@[k], id.spec_id(), false);
            }
        },
        _ => {},
    }
}

proof fn lemma_creation_ref(log: &OpLog, o: LoggedOp, refs: Seq<(ID, Option<ID>, bool)>, k: int, r: ID, is_edge: bool)
    requires
        log.graph_op_ok(o),
        refs == op_references(o.graph->Some_0),
        0 <= k < refs.len(),
        refs[k] == (r, None::<ID>, is_edge),
    ensures
        names_creation(log, o.container, r, is_edge),
        seen(log, o, r),
{
    assert(reference_ok(log, o.container, refs[k]));
    if exists|x: int| op_index_of(log.ops@, r, x) {
        let x = choose|x: int| op_index_of(log.ops@, r, x);
        assert(op_index_of(log.ops@, r, x));
    } else {
        assert forall|j: int| 0 <= j < log.ops@.len() implies !op_includes(#[trigger] log.ops@[j], r) by {
            if op_includes(log.ops@[j], r) {
                lemma_first_includes(log.ops@, r, j);
            }
        }
    }
}

proof fn lemma_tag_ref(
    log: &OpLog,
    o: LoggedOp,
    refs: Seq<(ID, Option<ID>, bool)>,
    k: int,
    d: ID,
    object: ID,
    is_edge: bool,
)
    requires
        log.graph_op_ok(o),
        refs == op_references(o.graph->Some_0),
        0 <= k < refs.len(),
        refs[k] == (d, Some(object), is_edge),
    ensures
        tag_names_delete(log, o.container, d, object, is_edge),
        seen(log, o, d),
{
    assert(reference_ok(log, o.container, refs[k]));
    if exists|x: int| op_index_of(log.ops@, d, x) {
        let x = choose|x: int| op_index_of(log.ops@, d, x);
        assert(op_index_of(log.ops@, d, x));
    } else {
        assert forall|j: int| 0 <= j < log.ops@.len() implies !op_includes(#[trigger] log.ops@[j], d) by {
            if op_includes(log.ops@[j], d) {
                lemma_first_includes(log.ops@, d, j);
            }
        }
    }
}

/// Where some logged operation holds `r`, a first one does.
proof fn lemma_first_includes(ops: Seq<LoggedOp>, r: ID, j: int)
    requires
        0 <= j < ops.len(),
        op_includes(ops[j], r),
    ensures
        exists|x: int| op_index_of(ops, r, x),
    decreases j,
{
    if exists|m: int| 0 <= m < j && op_includes(#[trigger] ops[m], r) {
        let m = choose|m: int| 0 <= m < j && op_includes(#[trigger] ops[m], r);
        lemma_first_includes(ops, r, m);
    } else {
        assert(op_index_of(ops, r, j));
    }
}

/// The error that import validation reports for a graph operation that fails it.
pub open spec fn graph_op_error(o: LoggedOp) -> GraphError {
    if op_valid(o.graph->Some_0, o.id) {
        GraphError::InvalidReference
    } else {
        GraphError::InvalidOperation
    }
}

impl OpLog {
    /// Validate one graph operation: its identity checks, then every operation
    /// it names, then that it observed what it names above the shallow root.
    pub fn check_graph_op(&self, o: &LoggedOp) -> (res: Result<(), GraphError>)
        requires
            self.wf(),
            o.graph is Some,
        ensures
            res is Ok <==> self.graph_op_ok(*o),
            res matches Err(e) ==> e == graph_op_error(*o),
    {
        let g = match &o.graph {
            Some(g) => g,
            None => return Ok(()),
        };
        match g.validate(o.id) {
            Ok(()) => {},
            Err(e) => return Err(e),
        }
        let refs = g.references();
        let mut i: usize = 0;
        while i < refs.len()
            invariant
                self.wf(),
                o.graph == Some(*g),
                op_valid(*g, o.id),
                refs@ == op_references(*g),
                i <= refs@.len(),
                forall|k: int| 0 <= k < i ==> reference_ok(self, o.container, #[trigger] refs@[k]),
            decreases refs@.len() - i,
        {
            if !self.check_reference(o.container, &refs[i]) {
                return Err(GraphError::InvalidReference);
            }
            i += 1;
        }
        let mut remaining: Vec<ID> = Vec::new();
        let ghost mut src: Seq<int> = seq![];
        let mut i: usize = 0;
        while i < refs.len()
            invariant
                self.wf(),
                i <= refs@.len(),
                src.len() == remaining@.len(),
                forall|q: int|
                    0 <= q < remaining@.len() ==> 0 <= #[trigger] src[q] < i && remaining@[q] == refs@[src[q]].0
                        && !vv_includes(self.shallow@, remaining@[q]),
                forall|k: int|
                    0 <= k < i && !vv_includes(self.shallow@, #[trigger] refs@[k].0) ==> remaining@.contains(
                        refs@[k].0,
                    ),
            decreases refs@.len() - i,
        {
            let r = refs[i].0;
            if !self.shallow_includes(r) {
                let ghost before = remaining@;
                remaining.push(r);
                proof {
                    src = src.push(i as int);
                    assert forall|k: int|
                        0 <= k < i + 1 && !vv_includes(self.shallow@, #[trigger] refs@[k].0) implies remaining@.contains(
                        refs@[k].0,
                    ) by {
                        if k < i {
                            let q = choose|q: int| 0 <= q < before.len() && before[q] == refs@[k].0;
                            assert(remaining@[q] == refs@[k].0);
                        } else {
                            assert(remaining@[before.len() as int] == r);
                        }
                    }
                }
            }
            i += 1;
        }
        let ghost rem = remaining@;
        let all = self.observes_all(o.id, remaining);
        proof {
            let refs_s = op_references(*g);
            if all {
                assert forall|k: int|
                    0 <= k < refs_s.len() && !vv_includes(self.shallow@, #[trigger] refs_s[k].0) implies observed(
                    self.dag@,
                    o.id,
                    refs_s[k].0,
                ) by {
                    assert(refs@[k] == refs_s[k]);
                    let q = choose|q: int| 0 <= q < rem.len() && rem[q] == refs@[k].0;
                    assert(observed(self.dag@, o.id, rem[q]));
                }
            } else {
                let q = choose|q: int| 0 <= q < rem.len() && !observed(self.dag@, o.id, #[trigger] rem[q]);
                let k = src[q];
                assert(refs_s[k].0 == rem[q]);
            }
        }
        if all {
            Ok(())
        } else {
            Err(GraphError::InvalidReference)
        }
    }

    /// Validate the graph operations of an import: each must pass its identity
    /// checks, name operations of its own graph of the expected kind (or below
    /// the shallow root), and have observed every operation it names above the
    /// shallow root. Spans are checked in order, operations in log order.
    pub fn validate_graph_import(&self, imported: &Vec<ImportedSpan>) -> (res: Result<(), GraphError>)
        requires
            self.wf(),
        ensures
            res is Ok <==> self.import_ok(imported@),
            res is Ok ==> forall|i: int|
                0 <= i < self.ops@.len() && self.imported(imported@, i) && (#[trigger] self.ops@[i]).graph is Some
                    ==> graph_refs_ok(self, self.ops@[i]),
            res matches Err(e) ==> exists|i: int|
                0 <= i < self.ops@.len() && self.imported(imported@, i) && (#[trigger] self.ops@[i]).graph is Some
                    && !self.graph_op_ok(self.ops@[i]) && e == graph_op_error(self.ops@[i]),
    {
        let mut j: usize = 0;
        while j < imported.len()
            invariant
                self.wf(),
                j <= imported@.len(),
                forall|i: int, q: int|
                    0 <= i < self.ops@.len() && 0 <= q < j && (#[trigger] imported@[q]).0 == self.ops@[i].id.peer
                        && imported@[q].1 <= self.ops@[i].id.counter < imported@[q].2 && (#[trigger] self.ops@[i]).graph is Some
                        ==> self.graph_op_ok(self.ops@[i]),
            decreases imported@.len() - j,
        {
            let span = imported[j];
            let mut i: usize = 0;
            while i < self.ops.len()
                invariant
                    self.wf(),
                    j < imported@.len(),
                    span == imported@[j as int],
                    i <= self.ops@.len(),
                    forall|x: int, q: int|
                        0 <= x < self.ops@.len() && 0 <= q < j && (#[trigger] imported@[q]).0 == self.ops@[x].id.peer
                            && imported@[q].1 <= self.ops@[x].id.counter < imported@[q].2 && (#[trigger] self.ops@[x]).graph is Some
                            ==> self.graph_op_ok(self.ops@[x]),
                    forall|x: int|
                        0 <= x < i && span.0 == self.ops@[x].id.peer && span.1 <= self.ops@[x].id.counter < span.2
                            && (#[trigger] self.ops@[x]).graph is Some ==> self.graph_op_ok(self.ops@[x]),
                decreases self.ops@.len() - i,
            {
                let o = &self.ops[i];
                if o.id.peer == span.0 && span.1 <= o.id.counter && o.id.counter < span.2 && o.graph.is_some() {
                    match self.check_graph_op(o) {
                        Ok(()) => {},
                        Err(e) => {
                            proof {
                                assert(self.imported(imported@, i as int));
                            }
                            return Err(e);
                        },
                    }
                }
                i += 1;
            }
            j += 1;
        }
        proof {
            assert forall|i: int|
                0 <= i < self.ops@.len() && self.imported(imported@, i) && (#[trigger] self.ops@[i]).graph is Some implies self.graph_op_ok(
                self.ops@[i],
            ) by {
                let q = choose|q: int|
                    0 <= q < imported@.len() && (#[trigger] imported@[q]).0 == self.ops@[i].id.peer && imported@[q].1
                        <= self.ops@[i].id.counter < imported@[q].2;
            }
            assert forall|i: int|
                0 <= i < self.ops@.len() && self.imported(imported@, i) && (#[trigger] self.ops@[i]).graph is Some implies graph_refs_ok(
                self,
                self.ops@[i],
            ) by {
                law_import_references(self, imported@, i);
            }
        }
        Ok(())
    }
}

} // verus!
