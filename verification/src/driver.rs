//! Three replicas of the graph engine exchanging change packets, checked after
//! every step against the operation-set model.
use vstd::prelude::*;
use rand::rngs::StdRng;
use rand::seq::SliceRandom;
use rand::{Rng, SeedableRng};
use crate::ids::{ID, GraphNodeId, GraphEdgeId, node_of, edge_of};
use crate::op::{GraphOp, GraphChange, same_op};
use crate::position::GraphPosition;
use crate::state::{GraphState, GraphView, run, validation_result, node_alive, edge_visible, node_record_ids, edge_record_ids, lemma_sorted_len};
use crate::life::life_alive;
use crate::model::{
    Action, EdgeId, Event, EventId, NodeId, Object, Oracle, Snapshot, ModelNode, ModelEdge, contains, copy_set, is_subset,
    add_event, member, subset, closed, model_nodes, model_edges,
};

verus! {

#[verifier::external_type_specification]
#[verifier::external_body]
pub struct ExStdRng(StdRng);

/// `StdRng::seed_from_u64`: a generator seeded from `seed`. Nothing is stated of
/// its state.
#[verifier::external_body]
fn rng_from_seed(seed: u64) -> (r: StdRng) {
    StdRng::seed_from_u64(seed)
}

/// `Rng::gen_range(lo..hi)`: a value in `lo..hi`. It panics on an empty range,
/// which `requires` leaves out.
#[verifier::external_body]
fn rng_below(rng: &mut StdRng, lo: usize, hi: usize) -> (r: usize)
    requires
        lo < hi,
    ensures
        lo <= r < hi,
{
    rng.gen_range(lo..hi)
}

/// `SliceRandom::shuffle`: the same elements, in some order.
#[verifier::external_body]
fn rng_shuffle(rng: &mut StdRng, v: &mut Vec<usize>)
    ensures
        final(v)@.len() == old(v)@.len(),
        final(v)@.to_multiset() == old(v)@.to_multiset(),
{
    v.shuffle(rng)
}

/// Why a run stopped.
#[derive(Clone, Copy, Debug, PartialEq, Eq, Structural)]
pub enum RunError {
    /// The action is not valid at the writer's version.
    InvalidAction,
    /// The engine rejected a change the model accepts.
    Rejected,
    /// A replica's records disagree with the model.
    Mismatch,
    /// A replica, event or cut that does not exist.
    OutOfRange,
    /// Operation identities or clocks ran out.
    Exhausted,
}

/// One replica: one graph state per graph scope, the packets it received, and
/// those applied to its states.
pub struct Replica {
    main: GraphState,
    other: GraphState,
    received: Vec<bool>,
    applied: Vec<bool>,
    peer: u64,
    counter: i32,
    lamport: u32,
}

impl Replica {
    pub closed spec fn wf(&self) -> bool {
        self.main.wf() && self.other.wf() && self.counter >= 0
    }

    fn empty(peer: u64) -> (r: Replica)
        ensures
            r.wf(),
            r.peer == peer && r.counter == 0 && r.lamport == 0,
            r.received@.len() == 0 && r.applied@.len() == 0,
            forall|g: u8| #[trigger] r.state_view(g).nodes == Map::<ID, crate::life::LifeView>::empty()
                && r.state_view(g).edges == Map::<ID, crate::state::EdgeView>::empty(),
    {
        Replica {
            main: GraphState::new(),
            other: GraphState::new(),
            received: Vec::new(),
            applied: Vec::new(),
            peer,
            counter: 0,
            lamport: 0,
        }
    }

    /// The records of one graph scope.
    pub closed spec fn state_view(&self, graph: u8) -> GraphView {
        if graph == 0 {
            self.main@
        } else {
            self.other@
        }
    }

    fn state(&self, graph: u8) -> (r: &GraphState)
        requires
            self.wf(),
        ensures
            r.wf(),
            r@ == self.state_view(graph),
    {
        if graph == 0 { &self.main } else { &self.other }
    }

    /// Apply one packet's change to the state of its scope.
    fn apply(&mut self, graph: u8, change: &GraphChange) -> (r: Result<(), RunError>)
        requires
            old(self).wf(),
        ensures
            final(self).wf(),
            final(self).peer == old(self).peer,
            final(self).counter == old(self).counter,
            final(self).received == old(self).received,
            final(self).applied == old(self).applied,
            forall|g: u8| (g == 0) != (graph == 0) ==> #[trigger] final(self).state_view(g) == old(self).state_view(g),
            // the scope's state runs a forward copy of the change, if it validates
            exists|c: GraphChange| #![auto] c.id == change.id && c.lamport == change.lamport && c.forward && same_op(c.op, change.op) && ({
                let ok = validation_result(old(self).state_view(graph), seq![c]) is Ok;
                &&& !ok ==> r == Err::<(), RunError>(RunError::Rejected) && final(self).state_view(graph) == old(self).state_view(graph)
                    && final(self).lamport == old(self).lamport
                &&& ok ==> final(self).state_view(graph) == run(old(self).state_view(graph), seq![c])
            }),
            r is Ok <==> (r != Err::<(), RunError>(RunError::Rejected) && (change.lamport < old(self).lamport || change.lamport < u32::MAX)),
            r is Err ==> r == Err::<(), RunError>(RunError::Rejected) || r == Err::<(), RunError>(RunError::Exhausted),
            r is Ok ==> final(self).lamport == if change.lamport >= old(self).lamport { (change.lamport + 1) as u32 } else { old(self).lamport },
    {
        let c = GraphChange { id: change.id, lamport: change.lamport, op: change.op.duplicate(), forward: true };
        let ghost cc = c;
        let changes = vec![c];
        proof {
            assert(changes@.len() == 1);
            assert(forall|i: int| 0 <= i < changes@.len() ==> (#[trigger] changes@[i]).forward);
        }
        proof { assert(changes@ == seq![cc]); }
        let r = if graph == 0 { self.main.apply_diff(changes) } else { self.other.apply_diff(changes) };
        if r.is_err() {
            return Err(RunError::Rejected);
        }
        if change.lamport >= self.lamport {
            if change.lamport == u32::MAX {
                return Err(RunError::Exhausted);
            }
            self.lamport = change.lamport + 1;
        }
        Ok(())
    }
}

/// The members of an event set, ascending.
fn members(v: &Vec<bool>) -> (r: Vec<usize>)
    ensures
        forall|k: int| 0 <= k < r@.len() ==> r@[k] < v@.len() && v@[r@[k] as int],
        forall|j: int, k: int| 0 <= j < k < r@.len() ==> r@[j] < r@[k],
        forall|i: int| 0 <= i < v@.len() && v@[i] ==> exists|k: int| 0 <= k < r@.len() && r@[k] == i,
{
    let mut r: Vec<usize> = Vec::new();
    let mut i: usize = 0;
    while i < v.len()
        invariant
            i <= v@.len(),
            forall|k: int| 0 <= k < r@.len() ==> r@[k] < i && v@[r@[k] as int],
            forall|j: int, k: int| 0 <= j < k < r@.len() ==> r@[j] < r@[k],
            forall|x: int| 0 <= x < i && v@[x] ==> exists|k: int| 0 <= k < r@.len() && r@[k] == x,
        decreases v@.len() - i,
    {
        let ghost r0 = r@;
        if v[i] {
            r.push(i);
            proof {
                assert(r@[r0.len() as int] == i);
                assert forall|x: int| 0 <= x < i + 1 && v@[x] implies exists|k: int| 0 <= k < r@.len() && r@[k] == x by {
                    if x < i {
                        let k = choose|k: int| 0 <= k < r0.len() && r0[k] == x;
                        assert(r@[k] == x);
                    } else {
                        assert(r@[r0.len() as int] == x);
                    }
                }
            }
        }
        i += 1;
    }
    r
}

/// The number of `true` entries of `s`.
pub open spec fn count_true(s: Seq<bool>) -> nat
    decreases s.len(),
{
    if s.len() == 0 {
        0
    } else {
        count_true(s.drop_last()) + if s.last() { 1nat } else { 0nat }
    }
}

proof fn lemma_count_bound(s: Seq<bool>)
    ensures
        count_true(s) <= s.len(),
    decreases s.len(),
{
    if s.len() > 0 {
        lemma_count_bound(s.drop_last());
    }
}

/// The number of members of an event set.
fn count(v: &Vec<bool>) -> (r: usize)
    ensures
        r == count_true(v@),
{
    let mut n: usize = 0;
    let mut i: usize = 0;
    while i < v.len()
        invariant
            i <= v@.len(),
            n == count_true(v@.take(i as int)),
        decreases v@.len() - i,
    {
        proof {
            assert(v@.take(i + 1).drop_last() =~= v@.take(i as int));
            lemma_count_bound(v@.take(i as int));
        }
        if v[i] {
            n += 1;
        }
        i += 1;
    }
    proof { assert(v@.take(i as int) =~= v@); }
    n
}

/// The events of `received` whose causal past was received too.
pub open spec fn closed_part(events: Seq<Event>, received: Seq<bool>) -> Seq<bool> {
    Seq::new(events.len(), |i: int| member(received, i) && subset(events[i].ancestors@, received))
}

/// A model node is present in replica state `s` under its replica identity,
/// with the same lifecycle, and visible exactly when alive.
pub open spec fn node_agrees(ids: Seq<ID>, s: GraphView, n: ModelNode) -> bool {
    &&& n.id.birth < ids.len()
    &&& s.nodes.contains_key(ids[n.id.birth as int])
    &&& life_alive(s.nodes[ids[n.id.birth as int]]) == n.alive
    &&& node_alive(s, ids[n.id.birth as int]) == n.alive
}

/// A model edge is present in replica state `s` under its replica identity,
/// with the same lifecycle, visibility and endpoints.
pub open spec fn edge_agrees(ids: Seq<ID>, s: GraphView, e: ModelEdge) -> bool {
    &&& e.id.birth < ids.len() && e.source.birth < ids.len() && e.target.birth < ids.len()
    &&& s.edges.contains_key(ids[e.id.birth as int])
    &&& life_alive(s.edges[ids[e.id.birth as int]].life) == e.alive
    &&& edge_visible(s, ids[e.id.birth as int]) == e.visible
    &&& s.edges[ids[e.id.birth as int]].source == ids[e.source.birth as int]
    &&& s.edges[ids[e.id.birth as int]].target == ids[e.target.birth as int]
}

/// Replica state `s` holds exactly the model's records: as many nodes and
/// edges, and every model record agrees.
pub open spec fn state_agrees(ids: Seq<ID>, s: GraphView, nodes: Seq<ModelNode>, edges: Seq<ModelEdge>) -> bool {
    &&& s.nodes.dom().len() == nodes.len()
    &&& s.edges.dom().len() == edges.len()
    &&& forall|i: int| 0 <= i < nodes.len() ==> node_agrees(ids, s, #[trigger] nodes[i])
    &&& forall|i: int| 0 <= i < edges.len() ==> edge_agrees(ids, s, #[trigger] edges[i])
}

/// A deterministic three-replica run.
pub struct Run {
    oracle: Oracle,
    ids: Vec<ID>,
    scopes: Vec<u8>,
    changes: Vec<Option<GraphChange>>,
    replicas: Vec<Replica>,
    cuts: Vec<Vec<bool>>,
    next_peer: u64,
    seed: u64,
    step: usize,
}

impl Run {
    pub closed spec fn wf(&self) -> bool {
        &&& self.ids@.len() == self.oracle.events@.len()
        &&& self.scopes@.len() == self.oracle.events@.len()
        &&& self.changes@.len() == self.oracle.events@.len()
        &&& self.replicas@.len() == 3
        &&& forall|r: int| 0 <= r < 3 ==> (#[trigger] self.replicas@[r]).wf()
    }

    pub closed spec fn spec_seed(&self) -> u64 {
        self.seed
    }

    pub closed spec fn spec_step(&self) -> usize {
        self.step
    }

    /// The number of events written so far.
    pub closed spec fn spec_events(&self) -> nat {
        self.oracle.events@.len()
    }

    /// The events written so far.
    pub closed spec fn event_log(&self) -> Seq<Event> {
        self.oracle.events@
    }

    /// The replica identity of each event.
    pub closed spec fn event_ids(&self) -> Seq<ID> {
        self.ids@
    }

    /// The events a replica received.
    pub closed spec fn spec_received(&self, replica: int) -> Seq<bool> {
        self.replicas@[replica].received@
    }

    /// The records of one graph scope at a replica.
    pub closed spec fn replica_state(&self, replica: int, graph: u8) -> GraphView {
        self.replicas@[replica].state_view(graph)
    }

    /// The causally closed part of what a replica received.
    pub open spec fn spec_version(&self, replica: int) -> Seq<bool> {
        closed_part(self.event_log(), self.spec_received(replica))
    }

    /// A replica's records agree with the model's at version `v`, in both graph scopes.
    pub open spec fn replica_agrees(&self, replica: int, v: Seq<bool>) -> bool {
        forall|graph: u8|
            graph < 2 ==> #[trigger] state_agrees(
                self.event_ids(),
                self.replica_state(replica, graph),
                model_nodes(self.event_log(), graph, v, self.event_log().len() as int),
                model_edges(self.event_log(), graph, v, self.event_log().len() as int),
            )
    }

    /// A replica is causally closed and its records agree with the model at its version.
    pub open spec fn replica_ok(&self, k: int) -> bool {
        closed(self.event_log(), self.spec_version(k)) && self.replica_agrees(k, self.spec_version(k))
    }

    /// The saved cuts.
    pub closed spec fn spec_cuts(&self) -> Seq<Seq<bool>> {
        Seq::new(self.cuts@.len(), |i: int| self.cuts@[i]@)
    }

    /// The next peer a fresh replica gets.
    pub closed spec fn spec_next_peer(&self) -> u64 {
        self.next_peer
    }

    /// Event `i` carries a change to the graph engine (lifecycle and creation
    /// actions do; map writes do not).
    pub closed spec fn carries_change(&self, i: int) -> bool {
        self.changes@[i] is Some
    }

    /// `action` is valid at a replica's version.
    pub closed spec fn accepts(&self, replica: int, action: Action) -> bool {
        self.oracle.valid_at(self.spec_version(replica), action)
    }

    /// The same events, identities, received sets and replica records.
    pub open spec fn same_records(&self, other: Run) -> bool {
        &&& self.event_log() == other.event_log()
        &&& self.event_ids() == other.event_ids()
        &&& forall|k: int, g: u8| 0 <= k < 3 ==> #[trigger] self.replica_state(k, g) == other.replica_state(k, g)
        &&& forall|k: int| 0 <= k < 3 ==> #[trigger] self.spec_received(k) == other.spec_received(k)
    }

    /// Runs with the same records have the same replicas in agreement.
    pub proof fn lemma_same_records_ok(a: Run, b: Run, k: int)
        requires
            a.same_records(b),
            0 <= k < 3,
        ensures
            a.replica_ok(k) == b.replica_ok(k),
    {
        assert(a.spec_received(k) == b.spec_received(k));
        assert(a.spec_version(k) == b.spec_version(k));
        if a.replica_agrees(k, a.spec_version(k)) {
            assert forall|g: u8| g < 2 implies #[trigger] state_agrees(
                b.event_ids(),
                b.replica_state(k, g),
                model_nodes(b.event_log(), g, b.spec_version(k), b.event_log().len() as int),
                model_edges(b.event_log(), g, b.spec_version(k), b.event_log().len() as int),
            ) by {
                assert(a.replica_state(k, g) == b.replica_state(k, g));
                assert(state_agrees(
                    a.event_ids(),
                    a.replica_state(k, g),
                    model_nodes(a.event_log(), g, a.spec_version(k), a.event_log().len() as int),
                    model_edges(a.event_log(), g, a.spec_version(k), a.event_log().len() as int),
                ));
            }
        }
        if b.replica_agrees(k, b.spec_version(k)) {
            assert forall|g: u8| g < 2 implies #[trigger] state_agrees(
                a.event_ids(),
                a.replica_state(k, g),
                model_nodes(a.event_log(), g, a.spec_version(k), a.event_log().len() as int),
                model_edges(a.event_log(), g, a.spec_version(k), a.event_log().len() as int),
            ) by {
                assert(a.replica_state(k, g) == b.replica_state(k, g));
                assert(state_agrees(
                    b.event_ids(),
                    b.replica_state(k, g),
                    model_nodes(b.event_log(), g, b.spec_version(k), b.event_log().len() as int),
                    model_edges(b.event_log(), g, b.spec_version(k), b.event_log().len() as int),
                ));
            }
        }
    }

    /// A run with three empty replicas.
    pub fn new(seed: u64) -> (r: Run)
        ensures
            r.wf(),
            r.spec_seed() == seed,
            r.spec_step() == 0,
            r.spec_events() == 0,
    {
        let mut replicas: Vec<Replica> = Vec::new();
        replicas.push(Replica::empty(1));
        replicas.push(Replica::empty(2));
        replicas.push(Replica::empty(0x40_0000_0000_0003));
        Run {
            oracle: Oracle::new(),
            ids: Vec::new(),
            scopes: Vec::new(),
            changes: Vec::new(),
            replicas,
            cuts: Vec::new(),
            next_peer: 100,
            seed,
            step: 0,
        }
    }

    /// The causally closed part of what a replica received.
    pub fn version(&self, replica: usize) -> (r: Vec<bool>)
        requires
            self.wf(),
            replica < 3,
        ensures
            r@ == self.spec_version(replica as int),
    {
        let r = self.oracle.closed_subset(&self.replicas[replica].received);
        proof {
            assert(r@ =~= self.spec_version(replica as int)) by {
                assert forall|i: int| 0 <= i < r@.len() implies r@[i] == self.spec_version(replica as int)[i] by {
                    assert(member(r@, i) <==> r@[i]);
                }
            }
        }
        r
    }

    /// The model state of one graph scope at a replica's version.
    pub fn state(&self, replica: usize, graph: u8) -> (r: Snapshot)
        requires
            self.wf(),
            replica < 3,
        ensures
            r.nodes@ == model_nodes(self.event_log(), graph, self.spec_version(replica as int), self.event_log().len() as int),
            r.edges@ == model_edges(self.event_log(), graph, self.spec_version(replica as int), self.event_log().len() as int),
    {
        let v = self.version(replica);
        self.oracle.snapshot(graph, &v)
    }

    /// Whether the states of `rep` hold exactly the model's records at `v`.
    fn agrees(&self, rep: &Replica, v: &Vec<bool>) -> (r: bool)
        requires
            self.wf(),
            rep.wf(),
        ensures
            r == forall|graph: u8|
                graph < 2 ==> #[trigger] state_agrees(
                    self.event_ids(),
                    rep.state_view(graph),
                    model_nodes(self.event_log(), graph, v@, self.event_log().len() as int),
                    model_edges(self.event_log(), graph, v@, self.event_log().len() as int),
                ),
    {
        let ghost ids = self.event_ids();
        let ghost ev = self.event_log();
        let mut graph: u8 = 0;
        while graph < 2
            invariant
                self.wf(),
                rep.wf(),
                ids == self.event_ids(),
                ev == self.event_log(),
                graph <= 2,
                forall|g: u8|
                    g < graph ==> #[trigger] state_agrees(
                        ids,
                        rep.state_view(g),
                        model_nodes(ev, g, v@, ev.len() as int),
                        model_edges(ev, g, v@, ev.len() as int),
                    ),
            decreases 2 - graph,
        {
            let expected = self.oracle.snapshot(graph, v);
            let state = rep.state(graph);
            let ghost sv = state@;
            let ghost want = state_agrees(ids, sv, expected.nodes@, expected.edges@);
            let all_nodes = state.all_nodes();
            let all_edges = state.all_edges();
            proof {
                lemma_sorted_len(node_record_ids(all_nodes@));
                assert(node_record_ids(all_nodes@).to_set() =~= sv.nodes.dom()) by {
                    assert forall|x: ID| node_record_ids(all_nodes@).to_set().contains(x) <==> sv.nodes.dom().contains(x) by {
                        if sv.nodes.contains_key(x) {
                            let i = choose|i: int| 0 <= i < all_nodes@.len() && (#[trigger] all_nodes@[i]).id.spec_id() == x;
                            assert(node_record_ids(all_nodes@)[i] == x);
                        }
                        if node_record_ids(all_nodes@).to_set().contains(x) {
                            let i = choose|i: int| 0 <= i < node_record_ids(all_nodes@).len() && node_record_ids(all_nodes@)[i] == x;
                            assert(all_nodes@[i].id.spec_id() == x);
                        }
                    }
                }
                lemma_sorted_len(edge_record_ids(all_edges@));
                assert(edge_record_ids(all_edges@).to_set() =~= sv.edges.dom()) by {
                    assert forall|x: ID| edge_record_ids(all_edges@).to_set().contains(x) <==> sv.edges.dom().contains(x) by {
                        if sv.edges.contains_key(x) {
                            let i = choose|i: int| 0 <= i < all_edges@.len() && (#[trigger] all_edges@[i]).id.spec_id() == x;
                            assert(edge_record_ids(all_edges@)[i] == x);
                        }
                        if edge_record_ids(all_edges@).to_set().contains(x) {
                            let i = choose|i: int| 0 <= i < edge_record_ids(all_edges@).len() && edge_record_ids(all_edges@)[i] == x;
                            assert(all_edges@[i].id.spec_id() == x);
                        }
                    }
                }
            }
            if all_nodes.len() != expected.nodes.len() || all_edges.len() != expected.edges.len() {
                proof {
                    assert(!state_agrees(ids, rep.state_view(graph), model_nodes(ev, graph, v@, ev.len() as int), model_edges(ev, graph, v@, ev.len() as int)));
                }
                return false;
            }
            let mut i: usize = 0;
            while i < expected.nodes.len()
                invariant
                    self.wf(),
                    state.wf(),
                    ids == self.event_ids(),
                    ev == self.event_log(),
                    sv == state@,
                    sv == rep.state_view(graph),
                    graph < 2,
                    expected.nodes@ == model_nodes(ev, graph, v@, ev.len() as int),
                    expected.edges@ == model_edges(ev, graph, v@, ev.len() as int),
                    i <= expected.nodes@.len(),
                    forall|k: int| 0 <= k < i ==> node_agrees(ids, sv, #[trigger] expected.nodes@[k]),
                decreases expected.nodes@.len() - i,
            {
                let n = &expected.nodes[i];
                if n.id.birth >= self.ids.len() {
                    proof { assert(!node_agrees(ids, sv, expected.nodes@[i as int])); assert(!state_agrees(ids, rep.state_view(graph), model_nodes(ev, graph, v@, ev.len() as int), model_edges(ev, graph, v@, ev.len() as int))); }
                    return false;
                }
                match state.node_record(GraphNodeId::from_id(self.ids[n.id.birth])) {
                    Some(rec) => {
                        if rec.alive != n.alive || rec.visible != n.alive {
                            proof { assert(!node_agrees(ids, sv, expected.nodes@[i as int])); assert(!state_agrees(ids, rep.state_view(graph), model_nodes(ev, graph, v@, ev.len() as int), model_edges(ev, graph, v@, ev.len() as int))); }
                            return false;
                        }
                    },
                    None => {
                        proof { assert(!node_agrees(ids, sv, expected.nodes@[i as int])); assert(!state_agrees(ids, rep.state_view(graph), model_nodes(ev, graph, v@, ev.len() as int), model_edges(ev, graph, v@, ev.len() as int))); }
                        return false;
                    },
                }
                i += 1;
            }
            let mut i: usize = 0;
            while i < expected.edges.len()
                invariant
                    self.wf(),
                    state.wf(),
                    ids == self.event_ids(),
                    ev == self.event_log(),
                    sv == state@,
                    sv == rep.state_view(graph),
                    graph < 2,
                    expected.nodes@ == model_nodes(ev, graph, v@, ev.len() as int),
                    expected.edges@ == model_edges(ev, graph, v@, ev.len() as int),
                    i <= expected.edges@.len(),
                    forall|k: int| 0 <= k < i ==> edge_agrees(ids, sv, #[trigger] expected.edges@[k]),
                decreases expected.edges@.len() - i,
            {
                let e = &expected.edges[i];
                if e.id.birth >= self.ids.len() || e.source.birth >= self.ids.len() || e.target.birth >= self.ids.len() {
                    proof { assert(!edge_agrees(ids, sv, expected.edges@[i as int])); assert(!state_agrees(ids, rep.state_view(graph), model_nodes(ev, graph, v@, ev.len() as int), model_edges(ev, graph, v@, ev.len() as int))); }
                    return false;
                }
                match state.edge_record(GraphEdgeId::from_id(self.ids[e.id.birth])) {
                    Some(rec) => {
                        if rec.alive != e.alive || rec.visible != e.visible || rec.source.id() != self.ids[e.source.birth]
                            || rec.target.id() != self.ids[e.target.birth] {
                            proof { assert(!edge_agrees(ids, sv, expected.edges@[i as int])); assert(!state_agrees(ids, rep.state_view(graph), model_nodes(ev, graph, v@, ev.len() as int), model_edges(ev, graph, v@, ev.len() as int))); }
                            return false;
                        }
                    },
                    None => {
                        proof { assert(!edge_agrees(ids, sv, expected.edges@[i as int])); assert(!state_agrees(ids, rep.state_view(graph), model_nodes(ev, graph, v@, ev.len() as int), model_edges(ev, graph, v@, ev.len() as int))); }
                        return false;
                    },
                }
                i += 1;
            }
            proof {
                assert(state_agrees(ids, rep.state_view(graph), model_nodes(ev, graph, v@, ev.len() as int), model_edges(ev, graph, v@, ev.len() as int)));
                assert forall|g: u8|
                    g < graph + 1 implies #[trigger] state_agrees(
                        ids,
                        rep.state_view(g),
                        model_nodes(ev, g, v@, ev.len() as int),
                        model_edges(ev, g, v@, ev.len() as int),
                    ) by {
                    if g < graph {
                    }
                }
            }
            graph += 1;
        }
        true
    }

    /// Whether a replica's states hold exactly the model's records at its version.
    pub fn check(&self, replica: usize) -> (r: bool)
        requires
            self.wf(),
            replica < 3,
        ensures
            r == (closed(self.event_log(), self.spec_version(replica as int)) && self.replica_agrees(
                replica as int,
                self.spec_version(replica as int),
            )),
    {
        let v = self.version(replica);
        if !self.oracle.is_closed(&v) {
            return false;
        }
        let a = self.agrees(&self.replicas[replica], &v);
        proof {
            let ev = self.event_log();
            let ids = self.event_ids();
            let rep = self.replicas@[replica as int];
            if a {
                assert forall|g: u8|
                    g < 2 implies #[trigger] state_agrees(
                        ids,
                        self.replica_state(replica as int, g),
                        model_nodes(ev, g, v@, ev.len() as int),
                        model_edges(ev, g, v@, ev.len() as int),
                    ) by {
                    assert(state_agrees(ids, rep.state_view(g), model_nodes(ev, g, v@, ev.len() as int), model_edges(ev, g, v@, ev.len() as int)));
                }
            } else {
                let g = choose|g: u8|
                    g < 2 && !#[trigger] state_agrees(
                        ids,
                        rep.state_view(g),
                        model_nodes(ev, g, v@, ev.len() as int),
                        model_edges(ev, g, v@, ev.len() as int),
                    );
                assert(!state_agrees(ids, self.replica_state(replica as int, g), model_nodes(ev, g, v@, ev.len() as int), model_edges(ev, g, v@, ev.len() as int)));
            }
        }
        a
    }

    /// Bring a replica's states up to its causally closed version, in event order.
    fn sync(&mut self, replica: usize) -> (r: Result<(), RunError>)
        requires
            old(self).wf(),
            replica < 3,
        ensures
            final(self).wf(),
            final(self).spec_events() == old(self).spec_events(),
            final(self).event_log() == old(self).event_log(),
            final(self).event_ids() == old(self).event_ids(),
            final(self).spec_cuts() == old(self).spec_cuts(),
            final(self).spec_next_peer() == old(self).spec_next_peer(),
            forall|k: int| 0 <= k < 3 ==> #[trigger] final(self).spec_received(k) == old(self).spec_received(k),
            forall|k: int, g: u8| 0 <= k < 3 && k != replica ==> #[trigger] final(self).replica_state(k, g) == old(self).replica_state(k, g),
            // nothing to apply, nothing to fail
            (forall|i: int| 0 <= i < old(self).spec_events() && member(old(self).spec_version(replica as int), i) ==> !old(self).carries_change(i))
                ==> r is Ok,
    {
        let ghost s0 = *self;
        let v = self.version(replica);
        let mut rep = self.replicas.remove(replica);
        let ghost s1 = *self;
        let ghost rep0 = rep;
        let mut result: Result<(), RunError> = Ok(());
        let n = self.changes.len();
        let mut i: usize = 0;
        while i < n
            invariant
                self.wf_without(replica),
                *self == s1,
                rep.wf(),
                rep.received == rep0.received,
                n == self.changes@.len(),
                i <= n,
                v@ == s0.spec_version(replica as int),
                s1.changes == s0.changes,
                (forall|j: int| 0 <= j < n && member(v@, j) ==> !(#[trigger] self.changes@[j] is Some)) ==> result is Ok,
            decreases n - i,
        {
            if contains(&v, i) && !contains(&rep.applied, i) {
                match &self.changes[i] {
                    Some(c) => {
                        if i < self.scopes.len() {
                            if let Err(e) = rep.apply(self.scopes[i], c) {
                                result = Err(e);
                            }
                        }
                    },
                    None => {},
                }
                add_event(&mut rep.applied, i);
            }
            i += 1;
        }
        self.replicas.insert(replica, rep);
        proof {
            self.lemma_wf_back(replica);
            assert(self.spec_cuts() =~= s0.spec_cuts());
            assert forall|k: int| 0 <= k < 3 implies #[trigger] self.spec_received(k) == s0.spec_received(k) by {
                if k != replica {
                    assert(self.replicas@[k] == s0.replicas@[k]);
                }
            }
            assert forall|k: int, g: u8| 0 <= k < 3 && k != replica implies #[trigger] self.replica_state(k, g) == s0.replica_state(k, g) by {
                assert(self.replicas@[k] == s0.replicas@[k]);
            }
            if forall|i: int| 0 <= i < s0.spec_events() && member(s0.spec_version(replica as int), i) ==> !s0.carries_change(i) {
                assert forall|j: int| 0 <= j < n && member(v@, j) implies !(#[trigger] self.changes@[j] is Some) by {
                    assert(!s0.carries_change(j));
                }
            }
        }
        result
    }

    /// The run without replica `replica`, taken out for an update.
    closed spec fn wf_without(&self, replica: usize) -> bool {
        &&& self.ids@.len() == self.oracle.events@.len()
        &&& self.scopes@.len() == self.oracle.events@.len()
        &&& self.changes@.len() == self.oracle.events@.len()
        &&& self.replicas@.len() == 2
        &&& forall|r: int| 0 <= r < 2 ==> (#[trigger] self.replicas@[r]).wf()
    }

    proof fn lemma_wf_back(&self, replica: usize)
        requires
            self.replicas@.len() == 3,
            self.ids@.len() == self.oracle.events@.len(),
            self.scopes@.len() == self.oracle.events@.len(),
            self.changes@.len() == self.oracle.events@.len(),
            forall|r: int| 0 <= r < 3 ==> (#[trigger] self.replicas@[r]).wf(),
        ensures
            self.wf(),
    {
    }
}

impl Run {
    /// Take replica `replica` out of the run, for an update.
    fn take(&mut self, replica: usize) -> (r: Replica)
        requires
            old(self).wf(),
            replica < 3,
        ensures
            r.wf(),
            r == old(self).replicas@[replica as int],
            final(self).replicas@ == old(self).replicas@.remove(replica as int),
            final(self).cuts == old(self).cuts,
            final(self).step == old(self).step,
            final(self).wf_without(replica),
            final(self).oracle == old(self).oracle,
            final(self).ids == old(self).ids,
            final(self).scopes == old(self).scopes,
            final(self).changes == old(self).changes,
            final(self).next_peer == old(self).next_peer,
            final(self).seed == old(self).seed,
    {
        self.replicas.remove(replica)
    }

    /// Put a replica back at `replica`.
    fn put(&mut self, replica: usize, rep: Replica)
        requires
            old(self).wf_without(replica),
            replica < 3,
            rep.wf(),
        ensures
            final(self).wf(),
            final(self).replicas@ == old(self).replicas@.insert(replica as int, rep),
            final(self).cuts == old(self).cuts,
            final(self).step == old(self).step,
            final(self).oracle == old(self).oracle,
            final(self).ids == old(self).ids,
            final(self).scopes == old(self).scopes,
            final(self).changes == old(self).changes,
            final(self).next_peer == old(self).next_peer,
            final(self).seed == old(self).seed,
    {
        self.replicas.insert(replica, rep);
    }

    /// A fresh replica with the given peer whose states hold exactly the events of `v`.
    fn rebuild(&self, peer: u64, v: &Vec<bool>) -> (r: Result<Replica, RunError>)
        requires
            self.wf(),
        ensures
            r matches Ok(rep) ==> rep.wf() && rep.peer == peer && rep.received@ == v@ && rep.counter == 0,
            (forall|i: int| 0 <= i < self.spec_events() && member(v@, i) ==> !self.carries_change(i)) ==> r is Ok,
    {
        let mut rep = Replica::empty(peer);
        rep.received = copy_set(v);
        let n = self.changes.len();
        let mut i: usize = 0;
        while i < n
            invariant
                self.wf(),
                rep.wf(),
                rep.peer == peer && rep.received@ == v@ && rep.counter == 0,
                n == self.changes@.len(),
                i <= n,
            decreases n - i,
        {
            if contains(v, i) {
                match &self.changes[i] {
                    Some(c) => {
                        proof { assert(self.carries_change(i as int)); }
                        if let Err(e) = rep.apply(self.scopes[i], c) {
                            return Err(e);
                        }
                    },
                    None => {},
                }
                add_event(&mut rep.applied, i);
            }
            i += 1;
        }
        Ok(rep)
    }

    /// The operation an action makes at a replica, from that replica's records.
    fn op_for(&self, rep: &Replica, graph: u8, op_id: ID, action: Action) -> (r: Result<Option<GraphOp>, RunError>)
        requires
            self.wf(),
            rep.wf(),
        ensures
            ({
                let g = rep.state_view(graph);
                let ids = self.ids@;
                match action {
                    Action::CreateNode(_) => r matches Ok(Some(GraphOp::CreateNode { id })) && id.spec_id() == op_id,
                    Action::CreateEdge { source, target, .. } => if source.birth >= ids.len() || target.birth >= ids.len() {
                        r == Err::<Option<GraphOp>, RunError>(RunError::OutOfRange)
                    } else {
                        &&& !g.nodes.contains_key(ids[source.birth as int]) ==> r == Err::<Option<GraphOp>, RunError>(RunError::Rejected)
                        &&& r is Err ==> r == Err::<Option<GraphOp>, RunError>(RunError::Rejected)
                        &&& r matches Ok(x) ==> (x matches Some(GraphOp::CreateEdge { id, source: s, target: t, position }) && id.spec_id() == op_id
                            && s.spec_id() == ids[source.birth as int] && t.spec_id() == ids[target.birth as int]
                            && crate::handler::after_all_out(g, s.spec_id(), position@))
                    },
                    Action::Delete(o) => if o.spec_birth() >= ids.len() {
                        r == Err::<Option<GraphOp>, RunError>(RunError::OutOfRange)
                    } else {
                        match o {
                            Object::Node(_) => r matches Ok(Some(GraphOp::DeleteNode { id })) && id.spec_id() == ids[o.spec_birth() as int],
                            Object::Edge(_) => r matches Ok(Some(GraphOp::DeleteEdge { id })) && id.spec_id() == ids[o.spec_birth() as int],
                        }
                    },
                    Action::Restore(o) => if o.spec_birth() >= ids.len() {
                        r == Err::<Option<GraphOp>, RunError>(RunError::OutOfRange)
                    } else {
                        // a restore lifts every delete active at the writer
                        match o {
                            Object::Node(_) => if g.nodes.contains_key(ids[o.spec_birth() as int]) {
                                r matches Ok(Some(GraphOp::RestoreNode { id, deletes })) && id.spec_id() == ids[o.spec_birth() as int]
                                    && crate::state::tags_match(deletes@, g.nodes[ids[o.spec_birth() as int]])
                            } else {
                                r == Err::<Option<GraphOp>, RunError>(RunError::Rejected)
                            },
                            Object::Edge(_) => if g.edges.contains_key(ids[o.spec_birth() as int]) {
                                r matches Ok(Some(GraphOp::RestoreEdge { id, deletes })) && id.spec_id() == ids[o.spec_birth() as int]
                                    && crate::state::tags_match(deletes@, g.edges[ids[o.spec_birth() as int]].life)
                            } else {
                                r == Err::<Option<GraphOp>, RunError>(RunError::Rejected)
                            },
                        }
                    },
                    Action::Write { .. } => r == Ok::<Option<GraphOp>, RunError>(None),
                    Action::Remove { .. } => r == Ok::<Option<GraphOp>, RunError>(None),
                }
            }),
    {
        let state = rep.state(graph);
        match action {
            Action::CreateNode(_) => Ok(Some(GraphOp::CreateNode { id: GraphNodeId::from_id(op_id) })),
            Action::CreateEdge { source, target, .. } => {
                if source.birth >= self.ids.len() || target.birth >= self.ids.len() {
                    return Err(RunError::OutOfRange);
                }
                let s = GraphNodeId::from_id(self.ids[source.birth]);
                let t = GraphNodeId::from_id(self.ids[target.birth]);
                let ordered = match state.ordered_out_edges(s) {
                    Ok(v) => v,
                    Err(_) => {
                        return Err(RunError::Rejected);
                    },
                };
                let position = if ordered.len() == 0 {
                    GraphPosition::between(None, None, 0)
                } else {
                    let last = &ordered[ordered.len() - 1].position;
                    proof { use_type_invariant(last); }
                    GraphPosition::between(Some(last), None, 0)
                };
                match position {
                    Ok(p) => {
                        proof {
                            let g0 = state@;
                            let o = crate::state::ordered_view(ordered@);
                            assert forall|sq: Seq<(Seq<u8>, ID)>| #[trigger] crate::state::ordered_out(g0, s.spec_id(), sq) implies forall|k: int|
                                0 <= k < sq.len() ==> #[trigger] crate::position::lex_lt(sq[k].0, p@) by {
                                crate::order_index::lemma_sorted_unique(sq, o);
                                assert forall|k: int| 0 <= k < sq.len() implies crate::position::lex_lt(sq[k].0, p@) by {
                                    let m = sq.len() - 1;
                                    if k < m {
                                        assert(crate::order_index::entry_lt(sq[k], sq[m]));
                                        assert(sq[m].0 == ordered@[m].position@);
                                        if sq[k].0 != sq[m].0 {
                                            crate::position::lemma_lex_transitive(sq[k].0, sq[m].0, p@);
                                        }
                                    } else {
                                        assert(sq[k].0 == ordered@[k].position@);
                                    }
                                }
                            }
                        }
                        Ok(Some(GraphOp::CreateEdge { id: GraphEdgeId::from_id(op_id), source: s, target: t, position: p }))
                    },
                    Err(_) => Err(RunError::Rejected),
                }
            },
            Action::Delete(o) => {
                if o.birth() >= self.ids.len() {
                    return Err(RunError::OutOfRange);
                }
                let x = self.ids[o.birth()];
                match o {
                    Object::Node(_) => Ok(Some(GraphOp::DeleteNode { id: GraphNodeId::from_id(x) })),
                    Object::Edge(_) => Ok(Some(GraphOp::DeleteEdge { id: GraphEdgeId::from_id(x) })),
                }
            },
            Action::Restore(o) => {
                if o.birth() >= self.ids.len() {
                    return Err(RunError::OutOfRange);
                }
                let x = self.ids[o.birth()];
                match o {
                    Object::Node(_) => match state.node_record(GraphNodeId::from_id(x)) {
                        Some(rec) => Ok(Some(GraphOp::RestoreNode { id: GraphNodeId::from_id(x), deletes: rec.delete_tags })),
                        None => Err(RunError::Rejected),
                    },
                    Object::Edge(_) => match state.edge_record(GraphEdgeId::from_id(x)) {
                        Some(rec) => Ok(Some(GraphOp::RestoreEdge { id: GraphEdgeId::from_id(x), deletes: rec.delete_tags })),
                        None => Err(RunError::Rejected),
                    },
                }
            },
            Action::Write { .. } => Ok(None),
            Action::Remove { .. } => Ok(None),
        }
    }

    /// Write `action` at a replica: it must be valid at the replica's version; the
    /// replica applies it at once, and its records must then match the model.
    pub fn act(&mut self, replica: usize, action: Action) -> (r: Result<EventId, RunError>)
        requires
            old(self).wf(),
        ensures
            final(self).wf(),
            r matches Ok(id) ==> id == old(self).spec_events() && final(self).spec_events() == old(self).spec_events() + 1,
            replica >= 3 ==> r == Err::<EventId, RunError>(RunError::OutOfRange) && *final(self) == *old(self),
            replica < 3 && !old(self).accepts(replica as int, action) ==> r == Err::<EventId, RunError>(RunError::InvalidAction)
                && *final(self) == *old(self),
            // a written action extends the log at the writer's version, and the writer agrees with the model
            r is Ok ==> final(self).event_log().subrange(0, old(self).spec_events() as int) == old(self).event_log()
                && final(self).event_log()[old(self).spec_events() as int].action == action
                && final(self).event_log()[old(self).spec_events() as int].ancestors@ == old(self).spec_version(replica as int)
                && final(self).replica_ok(replica as int),
    {
        if replica >= 3 {
            return Err(RunError::OutOfRange);
        }
        let at = self.version(replica);
        if !self.oracle.validate(&at, &action) {
            return Err(RunError::InvalidAction);
        }
        let id = self.oracle.next_id();
        let graph = action.object(id).graph();
        if self.replicas[replica].counter == i32::MAX || self.replicas[replica].lamport == u32::MAX {
            return Err(RunError::Exhausted);
        }
        let op_id = ID { peer: self.replicas[replica].peer, counter: self.replicas[replica].counter };
        let op = match self.op_for(&self.replicas[replica], graph, op_id, action) {
            Ok(op) => op,
            Err(e) => {
                return Err(e);
            },
        };
        let mut rep = self.take(replica);
        let lamport = rep.lamport;
        let change = match op {
            Some(op) => {
                let c = GraphChange { id: op_id, lamport, op, forward: true };
                if let Err(e) = rep.apply(graph, &c) {
                    self.put(replica, rep);
                    return Err(e);
                }
                Some(c)
            },
            None => {
                rep.lamport = lamport + 1;
                None
            },
        };
        rep.counter = rep.counter + 1;
        add_event(&mut rep.received, id);
        add_event(&mut rep.applied, id);
        self.oracle.append(&at, action);
        self.ids.push(op_id);
        self.scopes.push(graph);
        self.changes.push(change);
        self.put(replica, rep);
        if !self.check(replica) {
            return Err(RunError::Mismatch);
        }
        let ghost s1 = *self;
        self.save_cut(replica);
        proof {
            Run::lemma_same_records_ok(*self, s1, replica as int);
        }
        Ok(id)
    }

    /// Create a node in `graph` at a replica.
    pub fn node(&mut self, replica: usize, graph: u8) -> (r: Result<NodeId, RunError>)
        requires
            old(self).wf(),
        ensures
            final(self).wf(),
            r matches Ok(n) ==> n.graph == graph && n.birth == old(self).spec_events(),
            replica >= 3 ==> r == Err::<NodeId, RunError>(RunError::OutOfRange) && *final(self) == *old(self),
            r is Ok ==> final(self).event_log()[old(self).spec_events() as int].action == Action::CreateNode(graph)
                && final(self).replica_ok(replica as int),
    {
        match self.act(replica, Action::CreateNode(graph)) {
            Ok(id) => Ok(NodeId { graph, birth: id }),
            Err(e) => Err(e),
        }
    }

    /// Create an edge at a replica.
    pub fn edge(&mut self, replica: usize, source: NodeId, target: NodeId) -> (r: Result<EdgeId, RunError>)
        requires
            old(self).wf(),
        ensures
            final(self).wf(),
            r matches Ok(e) ==> e.graph == source.graph && e.birth == old(self).spec_events(),
            replica >= 3 ==> r == Err::<EdgeId, RunError>(RunError::OutOfRange) && *final(self) == *old(self),
            replica < 3 && !old(self).accepts(replica as int, Action::CreateEdge { graph: source.graph, source, target })
                ==> r == Err::<EdgeId, RunError>(RunError::InvalidAction) && *final(self) == *old(self),
            r is Ok ==> final(self).event_log()[old(self).spec_events() as int].action == (Action::CreateEdge { graph: source.graph, source, target })
                && final(self).replica_ok(replica as int),
    {
        match self.act(replica, Action::CreateEdge { graph: source.graph, source, target }) {
            Ok(id) => Ok(EdgeId { graph: source.graph, birth: id }),
            Err(e) => Err(e),
        }
    }

    /// Record that a replica received event `e`.
    fn receive(&mut self, to: usize, e: usize)
        requires
            old(self).wf(),
            to < 3,
        ensures
            final(self).wf(),
            final(self).spec_events() == old(self).spec_events(),
            final(self).event_log() == old(self).event_log(),
            final(self).event_ids() == old(self).event_ids(),
            final(self).spec_cuts() == old(self).spec_cuts(),
            final(self).spec_next_peer() == old(self).spec_next_peer(),
            forall|k: int, g: u8| 0 <= k < 3 ==> #[trigger] final(self).replica_state(k, g) == old(self).replica_state(k, g),
            forall|k: int| 0 <= k < 3 && k != to ==> #[trigger] final(self).spec_received(k) == old(self).spec_received(k),
            member(final(self).spec_received(to as int), e as int),
            forall|i: int| i != e ==> (member(final(self).spec_received(to as int), i) <==> member(old(self).spec_received(to as int), i)),
    {
        let ghost s0 = *self;
        let mut rep = self.take(to);
        add_event(&mut rep.received, e);
        self.put(to, rep);
        proof {
            assert forall|k: int, g: u8| 0 <= k < 3 implies #[trigger] self.replica_state(k, g) == s0.replica_state(k, g) by {
                if k != to {
                    assert(self.replicas@[k] == s0.replicas@[k]);
                } else {
                    assert(self.replicas@[k].main == s0.replicas@[k].main);
                    assert(self.replicas@[k].other == s0.replicas@[k].other);
                }
            }
            assert forall|k: int| 0 <= k < 3 && k != to implies #[trigger] self.spec_received(k) == s0.spec_received(k) by {
                assert(self.replicas@[k] == s0.replicas@[k]);
            }
        }
    }

    /// Deliver packets to a replica, one at a time or as one batch; duplicates and
    /// packets whose dependencies are missing are allowed. The replica must match
    /// the model after each import.
    pub fn deliver(&mut self, to: usize, events: &Vec<EventId>, batch: bool) -> (r: Result<(), RunError>)
        requires
            old(self).wf(),
        ensures
            final(self).wf(),
            final(self).spec_events() == old(self).spec_events(),
            final(self).event_log() == old(self).event_log(),
            final(self).event_ids() == old(self).event_ids(),
            to >= 3 ==> r == Err::<(), RunError>(RunError::OutOfRange) && *final(self) == *old(self),
            (exists|i: int| 0 <= i < events@.len() && events@[i] >= old(self).spec_events()) ==> r is Err,
            r is Ok ==> forall|i: int| 0 <= i < events@.len() ==> member(final(self).spec_received(to as int), #[trigger] events@[i] as int),
            // checked after the batch, or after each packet
            r is Ok && (batch || events@.len() > 0) ==> final(self).replica_ok(to as int),
    {
        if to >= 3 {
            return Err(RunError::OutOfRange);
        }
        let mut i: usize = 0;
        while i < events.len()
            invariant
                self.wf(),
                self.spec_events() == old(self).spec_events(),
                self.event_log() == old(self).event_log(),
                self.event_ids() == old(self).event_ids(),
                to < 3,
                i <= events@.len(),
                forall|j: int| 0 <= j < i ==> events@[j] < self.spec_events() && member(self.spec_received(to as int), #[trigger] events@[j] as int),
                !batch && i > 0 ==> self.replica_ok(to as int),
            decreases events@.len() - i,
        {
            let e = events[i];
            if e >= self.ids.len() {
                return Err(RunError::OutOfRange);
            }
            self.receive(to, e);
            if !batch {
                if let Err(x) = self.sync(to) {
                    return Err(x);
                }
                if !self.check(to) {
                    return Err(RunError::Mismatch);
                }
            }
            i += 1;
        }
        if batch {
            if let Err(x) = self.sync(to) {
                return Err(x);
            }
            if !self.check(to) {
                return Err(RunError::Mismatch);
            }
        }
        let ghost s1 = *self;
        self.save_cut(to);
        proof {
            Run::lemma_same_records_ok(*self, s1, to as int);
            assert(self.spec_received(to as int) == s1.spec_received(to as int));
        }
        Ok(())
    }

    /// Deliver everything one replica has to another, as one batch.
    pub fn send_all(&mut self, from: usize, to: usize) -> (r: Result<(), RunError>)
        requires
            old(self).wf(),
        ensures
            final(self).wf(),
            final(self).spec_events() == old(self).spec_events(),
            from >= 3 || to >= 3 ==> r == Err::<(), RunError>(RunError::OutOfRange) && *final(self) == *old(self),
            r is Ok ==> final(self).replica_ok(to as int) && forall|i: int|
                #[trigger] member(old(self).spec_version(from as int), i) ==> member(final(self).spec_received(to as int), i),
    {
        if from >= 3 {
            return Err(RunError::OutOfRange);
        }
        let v = self.version(from);
        let events = members(&v);
        let r = self.deliver(to, &events, true);
        proof {
            if r is Ok {
                assert forall|i: int| #[trigger] member(old(self).spec_version(from as int), i) implies member(self.spec_received(to as int), i) by {
                    assert(member(v@, i));
                    let k = choose|k: int| 0 <= k < events@.len() && events@[k] == i;
                    assert(member(self.spec_received(to as int), events@[k] as int));
                }
            }
        }
        r
    }

    /// Remember a replica's current version; returns its index.
    pub fn save_cut(&mut self, replica: usize) -> (r: usize)
        requires
            old(self).wf(),
            replica < 3,
        ensures
            final(self).wf(),
            final(self).spec_events() == old(self).spec_events(),
            final(self).same_records(*old(self)),
            final(self).spec_cuts() == old(self).spec_cuts().push(old(self).spec_version(replica as int)),
            final(self).spec_next_peer() == old(self).spec_next_peer(),
            r == old(self).spec_cuts().len(),
    {
        let v = self.version(replica);
        self.cuts.push(v);
        proof {
            assert(self.spec_cuts() =~= old(self).spec_cuts().push(old(self).spec_version(replica as int)));
        }
        self.cuts.len() - 1
    }

    /// Check out an earlier cut of a replica and back: a state rebuilt at the cut
    /// must match the model there, and the replica must still match at its version.
    pub fn checkout_roundtrip(&mut self, replica: usize, cut: usize) -> (r: Result<(), RunError>)
        requires
            old(self).wf(),
        ensures
            final(self).wf(),
            final(self).spec_events() == old(self).spec_events(),
            *final(self) == *old(self),
            replica >= 3 || cut >= old(self).spec_cuts().len() ==> r == Err::<(), RunError>(RunError::OutOfRange),
            r is Ok ==> subset(old(self).spec_cuts()[cut as int], old(self).spec_version(replica as int))
                && closed(old(self).event_log(), old(self).spec_cuts()[cut as int]) && old(self).replica_ok(replica as int),
    {
        if replica >= 3 || cut >= self.cuts.len() {
            return Err(RunError::OutOfRange);
        }
        let target = copy_set(&self.cuts[cut]);
        let latest = self.version(replica);
        if !is_subset(&target, &latest) {
            return Err(RunError::Mismatch);
        }
        let rebuilt = match self.rebuild(self.replicas[replica].peer, &target) {
            Ok(x) => x,
            Err(e) => {
                return Err(e);
            },
        };
        if !self.oracle.is_closed(&target) || !self.agrees(&rebuilt, &target) || !self.check(replica) {
            return Err(RunError::Mismatch);
        }
        Ok(())
    }

    /// Replace replica `to` with a new editor forked from replica `from` at a cut.
    pub fn fork_editor(&mut self, from: usize, to: usize, cut: usize) -> (r: Result<(), RunError>)
        requires
            old(self).wf(),
        ensures
            final(self).wf(),
            final(self).spec_events() == old(self).spec_events(),
            final(self).event_log() == old(self).event_log(),
            from >= 3 || to >= 3 || cut >= old(self).spec_cuts().len() ==> r == Err::<(), RunError>(RunError::OutOfRange)
                && *final(self) == *old(self),
            // the new editor holds exactly the cut, which the source had seen
            r is Ok ==> final(self).replica_ok(to as int) && final(self).spec_received(to as int) == old(self).spec_cuts()[cut as int]
                && subset(old(self).spec_cuts()[cut as int], old(self).spec_version(from as int)),
    {
        if from >= 3 || to >= 3 || cut >= self.cuts.len() {
            return Err(RunError::OutOfRange);
        }
        let target = copy_set(&self.cuts[cut]);
        if !is_subset(&target, &self.version(from)) {
            return Err(RunError::Mismatch);
        }
        if self.next_peer == u64::MAX {
            return Err(RunError::Exhausted);
        }
        let rep = match self.rebuild(self.next_peer, &target) {
            Ok(x) => x,
            Err(e) => {
                return Err(e);
            },
        };
        self.next_peer = self.next_peer + 1;
        let _old = self.take(to);
        self.put(to, rep);
        if !self.check(to) {
            return Err(RunError::Mismatch);
        }
        Ok(())
    }

    /// Rebuild a replica's version from scratch, as a snapshot import would, and
    /// check it against the model.
    pub fn snapshot_roundtrip(&mut self, from: usize) -> (r: Result<(), RunError>)
        requires
            old(self).wf(),
        ensures
            from >= 3 ==> r == Err::<(), RunError>(RunError::OutOfRange),
            from < 3 && old(self).spec_next_peer() == u64::MAX ==> r == Err::<(), RunError>(RunError::Exhausted),
            final(self).wf(),
            final(self).spec_events() == old(self).spec_events(),
            final(self).event_log() == old(self).event_log(),
            final(self).event_ids() == old(self).event_ids(),
            forall|k: int, g: u8| #[trigger] final(self).replica_state(k, g) == old(self).replica_state(k, g),
            forall|k: int| #[trigger] final(self).spec_received(k) == old(self).spec_received(k),
    {
        if from >= 3 {
            return Err(RunError::OutOfRange);
        }
        if self.next_peer == u64::MAX {
            return Err(RunError::Exhausted);
        }
        let at = self.version(from);
        let rebuilt = match self.rebuild(self.next_peer, &at) {
            Ok(x) => x,
            Err(e) => {
                return Err(e);
            },
        };
        self.next_peer = self.next_peer + 1;
        if !self.agrees(&rebuilt, &at) {
            return Err(RunError::Mismatch);
        }
        Ok(())
    }

    /// Import one replica's snapshot into another: the receiver gains every event
    /// of the sender's version, on top of what it already had.
    pub fn merge_snapshot(&mut self, from: usize, to: usize) -> (r: Result<(), RunError>)
        requires
            old(self).wf(),
        ensures
            final(self).wf(),
            final(self).spec_events() == old(self).spec_events(),
            final(self).event_log() == old(self).event_log(),
            from >= 3 || to >= 3 ==> r == Err::<(), RunError>(RunError::OutOfRange) && *final(self) == *old(self),
            r is Ok ==> final(self).replica_ok(to as int) && forall|i: int|
                #[trigger] member(old(self).spec_version(from as int), i) ==> member(final(self).spec_received(to as int), i),
            r is Ok ==> forall|i: int|
                #[trigger] member(old(self).spec_received(to as int), i) ==> member(final(self).spec_received(to as int), i),
    {
        if from >= 3 || to >= 3 {
            return Err(RunError::OutOfRange);
        }
        let v = self.version(from);
        let events = members(&v);
        let mut i: usize = 0;
        while i < events.len()
            invariant
                self.wf(),
                self.spec_events() == old(self).spec_events(),
                self.event_log() == old(self).event_log(),
                to < 3,
                i <= events@.len(),
                forall|j: int| 0 <= j < i ==> member(self.spec_received(to as int), #[trigger] events@[j] as int),
                forall|x: int| #[trigger] member(old(self).spec_received(to as int), x) ==> member(self.spec_received(to as int), x),
            decreases events@.len() - i,
        {
            self.receive(to, events[i]);
            i += 1;
        }
        if let Err(e) = self.sync(to) {
            return Err(e);
        }
        if !self.check(to) {
            return Err(RunError::Mismatch);
        }
        let ghost s1 = *self;
        self.save_cut(to);
        proof {
            Run::lemma_same_records_ok(*self, s1, to as int);
            assert(self.spec_received(to as int) == s1.spec_received(to as int));
            assert forall|x: int| #[trigger] member(old(self).spec_version(from as int), x) implies member(self.spec_received(to as int), x) by {
                assert(member(v@, x));
                let k = choose|k: int| 0 <= k < events@.len() && events@[k] == x;
                assert(member(self.spec_received(to as int), events@[k] as int));
            }
        }
        Ok(())
    }

    /// Deliver every packet to every replica in shuffled chunks, some duplicated;
    /// each replica must end with every event and match the model, and so must a
    /// rebuild of each.
    pub fn converge(&mut self) -> (r: Result<(), RunError>)
        requires
            old(self).wf(),
        ensures
            final(self).wf(),
            final(self).spec_events() == old(self).spec_events(),
            r is Ok ==> forall|replica: int|
                0 <= replica < 3 ==> #[trigger] final(self).replica_ok(replica),
    {
        let mut rng = rng_from_seed(self.seed ^ 0xF011_DE11u64);
        let n = self.ids.len();
        let mut replica: usize = 0;
        while replica < 3
            invariant
                self.wf(),
                self.spec_events() == old(self).spec_events(),
                n == self.ids@.len(),
            decreases 3 - replica,
        {
            let mut events: Vec<usize> = Vec::new();
            let mut k: usize = 0;
            while k < n
                invariant
                    k <= n,
                decreases n - k,
            {
                events.push(k);
                k += 1;
            }
            rng_shuffle(&mut rng, &mut events);
            let mut offset: usize = 0;
            while offset < events.len()
                invariant
                    self.wf(),
                    self.spec_events() == old(self).spec_events(),
                    n == self.ids@.len(),
                    replica < 3,
                    offset <= events@.len(),
                decreases events@.len() - offset,
            {
                let step = rng_below(&mut rng, 1, 5);
                let end = if events.len() - offset < step { events.len() } else { offset + step };
                let mut chunk: Vec<usize> = Vec::new();
                let mut k: usize = offset;
                while k < end
                    invariant
                        offset <= k <= end,
                        end <= events@.len(),
                    decreases end - k,
                {
                    chunk.push(events[k]);
                    k += 1;
                }
                if rng_below(&mut rng, 0, 2) == 1 && chunk.len() > 0 {
                    let first = chunk[0];
                    chunk.push(first);
                }
                let batch = rng_below(&mut rng, 0, 2) == 1;
                if let Err(e) = self.deliver(replica, &chunk, batch) {
                    return Err(e);
                }
                offset = end;
            }
            if count(&self.version(replica)) != n {
                return Err(RunError::Mismatch);
            }
            replica += 1;
        }
        let mut replica: usize = 0;
        while replica < 3
            invariant
                self.wf(),
                self.spec_events() == old(self).spec_events(),
                replica <= 3,
                forall|k: int|
                    0 <= k < replica ==> #[trigger] self.replica_ok(k),
            decreases 3 - replica,
        {
            if !self.check(replica) {
                return Err(RunError::Mismatch);
            }
            replica += 1;
        }
        let mut replica: usize = 0;
        while replica < 3
            invariant
                self.wf(),
                self.spec_events() == old(self).spec_events(),
                forall|k: int|
                    0 <= k < 3 ==> #[trigger] self.replica_ok(k),
            decreases 3 - replica,
        {
            let ghost before = *self;
            if let Err(e) = self.snapshot_roundtrip(replica) {
                return Err(e);
            }
            proof {
                assert(self.same_records(before));
                assert forall|k: int| 0 <= k < 3 implies #[trigger] self.replica_ok(k) by {
                    Run::lemma_same_records_ok(*self, before, k);
                    assert(before.replica_ok(k));
                }
            }
            replica += 1;
        }
        Ok(())
    }

    /// Whether every replica matches the model.
    pub fn check_all(&self) -> (r: bool)
        requires
            self.wf(),
        ensures
            r == forall|replica: int|
                0 <= replica < 3 ==> #[trigger] self.replica_ok(replica),
    {
        let a = self.check(0);
        let b = self.check(1);
        let c = self.check(2);
        proof {
            if a && b && c {
                assert forall|replica: int|
                    0 <= replica < 3 implies #[trigger] self.replica_ok(replica) by {
                    if replica == 0 {
                    } else if replica == 1 {
                    } else {
                    }
                }
            } else if !a {
                assert(!self.replica_ok(0));
            } else if !b {
                assert(!self.replica_ok(1));
            } else {
                assert(!self.replica_ok(2));
            }
        }
        a && b && c
    }

    /// Seed shapes beyond trees: a diamond, overlapping cycles, parallel edges, a
    /// self-loop, disconnected nodes, and a second graph; then replica 1 gets
    /// everything as one batch and replica 2 gets it one packet at a time, newest first.
    pub fn bootstrap(&mut self) -> (r: Result<(), RunError>)
        requires
            old(self).wf(),
        ensures
            final(self).wf(),
            r is Ok ==> forall|k: int| 0 <= k < 3 ==> #[trigger] final(self).replica_ok(k),
    {
        let mut nodes: Vec<NodeId> = Vec::new();
        let mut k: usize = 0;
        while k < 7
            invariant
                self.wf(),
                nodes@.len() == k,
                k <= 7,
            decreases 7 - k,
        {
            match self.node(0, 0) {
                Ok(n) => nodes.push(n),
                Err(e) => {
                    return Err(e);
                },
            }
            k += 1;
        }
        let pairs: [(usize, usize); 9] = [(0, 1), (0, 2), (1, 3), (2, 3), (3, 0), (0, 0), (0, 1), (3, 1), (5, 6)];
        let mut k: usize = 0;
        while k < 9
            invariant
                self.wf(),
                nodes@.len() == 7,
                forall|j: int| 0 <= j < 9 ==> pairs@[j].0 < 7 && pairs@[j].1 < 7,
            decreases 9 - k,
        {
            let (s, t) = pairs[k];
            if let Err(e) = self.edge(0, nodes[s], nodes[t]) {
                return Err(e);
            }
            k += 1;
        }
        let a = match self.node(0, 1) {
            Ok(n) => n,
            Err(e) => {
                return Err(e);
            },
        };
        let b = match self.node(0, 1) {
            Ok(n) => n,
            Err(e) => {
                return Err(e);
            },
        };
        if let Err(e) = self.edge(0, a, b) {
            return Err(e);
        }
        if let Err(e) = self.send_all(0, 1) {
            return Err(e);
        }
        let forward = members(&self.version(0));
        let mut reverse: Vec<usize> = Vec::new();
        let mut k: usize = forward.len();
        while k > 0
            invariant
                k <= forward@.len(),
            decreases k,
        {
            reverse.push(forward[k - 1]);
            k -= 1;
        }
        if let Err(e) = self.deliver(2, &reverse, false) {
            return Err(e);
        }
        if !self.check_all() {
            return Err(RunError::Mismatch);
        }
        Ok(())
    }

    /// The indices of the cuts contained in a replica's version.
    fn valid_cuts(&self, replica: usize) -> (r: Vec<usize>)
        requires
            self.wf(),
            replica < 3,
        ensures
            forall|k: int| 0 <= k < r@.len() ==> r@[k] < self.spec_cuts().len()
                && subset(self.spec_cuts()[r@[k] as int], self.spec_version(replica as int)),
            forall|j: int, k: int| 0 <= j < k < r@.len() ==> r@[j] < r@[k],
            forall|i: int| 0 <= i < self.spec_cuts().len() && subset(self.spec_cuts()[i], self.spec_version(replica as int))
                ==> exists|k: int| 0 <= k < r@.len() && r@[k] == i,
    {
        let known = self.version(replica);
        let mut r: Vec<usize> = Vec::new();
        let mut i: usize = 0;
        while i < self.cuts.len()
            invariant
                i <= self.cuts@.len(),
                known@ == self.spec_version(replica as int),
                forall|k: int| 0 <= k < r@.len() ==> r@[k] < i && subset(self.spec_cuts()[r@[k] as int], known@),
                forall|j: int, k: int| 0 <= j < k < r@.len() ==> r@[j] < r@[k],
                forall|x: int| 0 <= x < i && subset(self.spec_cuts()[x], known@) ==> exists|k: int| 0 <= k < r@.len() && r@[k] == x,
            decreases self.cuts@.len() - i,
        {
            let ghost r0 = r@;
            if is_subset(&self.cuts[i], &known) {
                r.push(i);
                proof {
                    assert(r@[r0.len() as int] == i);
                    assert forall|x: int| 0 <= x < i + 1 && subset(self.spec_cuts()[x], known@) implies exists|k: int| 0 <= k < r@.len() && r@[k] == x by {
                        if x < i {
                            let k = choose|k: int| 0 <= k < r0.len() && r0[k] == x;
                            assert(r@[k] == x);
                        } else {
                            assert(r@[r0.len() as int] == x);
                        }
                    }
                }
            }
            i += 1;
        }
        r
    }

    /// One random step: an edit, a partial delivery, a checkout, a fork, a
    /// snapshot merge or a snapshot rebuild.
    fn random_step(&mut self, rng: &mut StdRng) -> (r: Result<(), RunError>)
        requires
            old(self).wf(),
        ensures
            final(self).wf(),
    {
        let replica = rng_below(rng, 0, 3);
        let scope = if rng_below(rng, 0, 2) == 0 { 0u8 } else { 1u8 };
        let state = self.state(replica, scope);
        let mut visible: Vec<NodeId> = Vec::new();
        let mut objects: Vec<(Object, bool)> = Vec::new();
        let mut i: usize = 0;
        while i < state.nodes.len()
            invariant
                i <= state.nodes@.len(),
            decreases state.nodes@.len() - i,
        {
            let n = &state.nodes[i];
            if n.alive {
                visible.push(n.id);
            }
            objects.push((Object::Node(n.id), n.alive));
            i += 1;
        }
        let mut i: usize = 0;
        while i < state.edges.len()
            invariant
                i <= state.edges@.len(),
            decreases state.edges@.len() - i,
        {
            objects.push((Object::Edge(state.edges[i].id), state.edges[i].alive));
            i += 1;
        }
        let kind = rng_below(rng, 0, 16);
        if kind == 0 {
            return match self.node(replica, scope) {
                Ok(_) => Ok(()),
                Err(e) => Err(e),
            };
        }
        if (kind == 1 || kind == 2) && visible.len() > 0 {
            let s = visible[rng_below(rng, 0, visible.len())];
            let t = visible[rng_below(rng, 0, visible.len())];
            return match self.edge(replica, s, t) {
                Ok(_) => Ok(()),
                Err(e) => Err(e),
            };
        }
        if 3 <= kind && kind <= 5 && objects.len() > 0 {
            let (object, alive) = objects[rng_below(rng, 0, objects.len())];
            let action = if alive { Action::Delete(object) } else { Action::Restore(object) };
            return match self.act(replica, action) {
                Ok(_) => Ok(()),
                Err(e) => Err(e),
            };
        }
        if (kind == 6 || kind == 7) && objects.len() > 0 {
            let (object, _) = objects[rng_below(rng, 0, objects.len())];
            let key = self.replicas[replica].peer;
            let value = self.ids.len() as u64;
            let action = if rng_below(rng, 0, 10) < 3 { Action::Remove { object, key } } else { Action::Write { object, key, value } };
            return match self.act(replica, action) {
                Ok(_) => Ok(()),
                Err(e) => Err(e),
            };
        }
        if 8 <= kind && kind <= 11 {
            let to = (replica + rng_below(rng, 1, 3)) % 3;
            let mut events = members(&self.version(replica));
            rng_shuffle(rng, &mut events);
            let keep = rng_below(rng, 1, 5);
            let mut chosen: Vec<usize> = Vec::new();
            let mut k: usize = 0;
            while k < events.len() && k < keep
                invariant
                    k <= events@.len(),
                decreases events@.len() - k,
            {
                chosen.push(events[k]);
                k += 1;
            }
            if chosen.len() > 0 && rng_below(rng, 0, 2) == 1 {
                let first = chosen[0];
                chosen.push(first);
            }
            let batch = rng_below(rng, 0, 2) == 1;
            return self.deliver(to, &chosen, batch);
        }
        if kind == 12 || kind == 13 {
            let valid = self.valid_cuts(replica);
            if valid.len() > 0 {
                let cut = valid[rng_below(rng, 0, valid.len())];
                return self.checkout_roundtrip(replica, cut);
            }
            return Ok(());
        }
        if kind == 14 {
            let valid = self.valid_cuts(replica);
            if valid.len() > 0 {
                let cut = valid[rng_below(rng, 0, valid.len())];
                let to = (replica + 1) % 3;
                if let Err(e) = self.fork_editor(replica, to, cut) {
                    return Err(e);
                }
                return match self.node(to, scope) {
                    Ok(_) => Ok(()),
                    Err(e) => Err(e),
                };
            }
            return Ok(());
        }
        if kind == 15 {
            return self.merge_snapshot(replica, (replica + 1) % 3);
        }
        self.snapshot_roundtrip(replica)
    }
}

/// Where a run stopped: the error and the random step it was at.
#[derive(Clone, Copy, Debug, PartialEq, Eq, Structural)]
pub struct RunFailure {
    pub error: RunError,
    pub seed: u64,
    pub step: usize,
}

/// Bootstrap, then `steps` random steps drawn from `seed`, then convergence,
/// handing back the finished run: on success every replica holds exactly the
/// model's records at its version.
pub fn run_seed_to_end(seed: u64, steps: usize) -> (r: Result<Run, RunFailure>)
    ensures
        r matches Ok(run) ==> run.wf() && forall|k: int| 0 <= k < 3 ==> #[trigger] run.replica_ok(k),
        r matches Err(f) ==> f.seed == seed && f.step <= steps,
{
    let mut run = Run::new(seed);
    if let Err(error) = run.bootstrap() {
        return Err(RunFailure { error, seed, step: 0 });
    }
    let mut rng = rng_from_seed(seed);
    let mut step: usize = 0;
    while step < steps
        invariant
            run.wf(),
            step <= steps,
        decreases steps - step,
    {
        run.step = step;
        if let Err(error) = run.random_step(&mut rng) {
            return Err(RunFailure { error, seed, step });
        }
        step += 1;
    }
    match run.converge() {
        Ok(()) => Ok(run),
        Err(error) => Err(RunFailure { error, seed, step: steps }),
    }
}

/// Every replica of a finished run holds exactly the model's records at its version.
pub open spec fn run_passed(run: Run) -> bool {
    run.wf() && forall|k: int| 0 <= k < 3 ==> #[trigger] run.replica_ok(k)
}

/// Bootstrap, then `steps` random steps drawn from `seed`, then convergence: the
/// outcome of `run_seed_to_end`, with the finished run as a ghost result. Success
/// means that every replica of that run matched the model.
pub fn run_seed(seed: u64, steps: usize) -> (r: (Result<(), RunFailure>, Ghost<Run>))
    ensures
        r.0 is Ok ==> run_passed(r.1@),
        r.0 matches Err(f) ==> f.seed == seed && f.step <= steps,
{
    match run_seed_to_end(seed, steps) {
        Ok(run) => (Ok(()), Ghost(run)),
        Err(f) => (Err(f), Ghost(arbitrary())),
    }
}

/// Whether `e` is listed.
fn lists(v: &Vec<EdgeId>, e: EdgeId) -> (r: bool)
    ensures
        r <==> v@.contains(e),
{
    let mut i: usize = 0;
    while i < v.len()
        invariant
            i <= v@.len(),
            forall|k: int| 0 <= k < i ==> v@[k] != e,
        decreases v@.len() - i,
    {
        if v[i] == e {
            return true;
        }
        i += 1;
    }
    false
}

/// The saved schedule for seed 61516: a delete delivered before its dependencies,
/// a historical fork editing the deleted node, and a snapshot merge that must not
/// resurrect the independently deleted node.
fn pending_schedule(run: &mut Run) -> (r: Result<(), RunError>)
    requires
        old(run).wf(),
    ensures
        final(run).wf(),
        r is Ok ==> forall|k: int| 0 <= k < 3 ==> #[trigger] final(run).replica_ok(k),
{
    let x = run.node(0, 0)?;
    let y = run.node(0, 0)?;
    let nodes_cut = run.save_cut(0);
    let old_edge = run.edge(0, x, y)?;
    let original_cut = run.save_cut(0);
    let deleted = run.act(0, Action::Delete(Object::Node(x)))?;
    // Only the descendant packet arrives: it waits, and manufactures nothing.
    run.deliver(2, &vec![deleted, old_edge.birth, deleted], false)?;
    if count(&run.version(2)) != 0 {
        return Err(RunError::Mismatch);
    }
    run.fork_editor(0, 1, nodes_cut)?;
    let branch = run.edge(1, y, x)?;
    run.act(1, Action::Write { object: Object::Node(x), key: 1, value: 0 })?;
    // The snapshot supplies the missing dependencies and merges with what was received.
    run.merge_snapshot(1, 2)?;
    let merged = run.state(2, 0);
    match (merged.node_alive(x), merged.edge_alive(old_edge), merged.edge_alive(branch)) {
        (Some(false), Some(true), Some(true)) => {},
        _ => {
            return Err(RunError::Mismatch);
        },
    }
    if merged.visible_edges().len() != 0 {
        return Err(RunError::Mismatch);
    }
    run.deliver(1, &vec![deleted, old_edge.birth, old_edge.birth], true)?;
    run.act(1, Action::Restore(Object::Node(x)))?;
    run.converge()?;
    let visible = run.state(0, 0).visible_edges();
    if visible.len() != 2 || !lists(&visible, old_edge) || !lists(&visible, branch) {
        return Err(RunError::Mismatch);
    }
    run.checkout_roundtrip(0, nodes_cut)?;
    run.checkout_roundtrip(0, original_cut)?;
    Ok(())
}

/// Run the saved seed-61516 schedule, handing back the finished run: on success
/// every replica holds exactly the model's records at its version.
pub fn pending_snapshot_run() -> (r: Result<Run, RunFailure>)
    ensures
        r matches Ok(run) ==> run.wf() && forall|k: int| 0 <= k < 3 ==> #[trigger] run.replica_ok(k),
        r matches Err(f) ==> f.seed == 61516,
{
    let mut run = Run::new(61516);
    match pending_schedule(&mut run) {
        Ok(()) => Ok(run),
        Err(error) => Err(RunFailure { error, seed: 61516, step: run.step }),
    }
}

/// Run the saved seed-61516 schedule: the outcome of `pending_snapshot_run`, with
/// the finished run as a ghost result. Success means that every replica of that
/// run matched the model.
pub fn pending_snapshot_61516() -> (r: (Result<(), RunFailure>, Ghost<Run>))
    ensures
        r.0 is Ok ==> run_passed(r.1@),
        r.0 matches Err(f) ==> f.seed == 61516,
{
    match pending_snapshot_run() {
        Ok(run) => (Ok(()), Ghost(run)),
        Err(f) => (Err(f), Ghost(arbitrary())),
    }
}

} // verus!
