//! Collecting graph operations as history is applied, and turning the
//! operations between two versions into an event diff: retracted operations
//! latest first, then replayed operations earliest first.
use vstd::prelude::*;
use crate::ids::{ID, id_lt, id_less};
use crate::idmap::IdMap;
use crate::op::{GraphOp, GraphChange, GraphDiff, same_op, op_object};

verus! {

/// A span of one peer's counters: `(peer, start, end)`, end exclusive.
pub open spec fn in_spans(spans: Seq<(u64, i32, i32)>, x: ID) -> bool {
    exists|j: int| 0 <= j < spans.len() && (#[trigger] spans[j]).0 == x.peer && spans[j].1 <= x.counter < spans[j].2
}

/// Changes are ordered by Lamport clock, then identity.
pub open spec fn clock_lt(a: GraphChange, b: GraphChange) -> bool {
    a.lamport < b.lamport || (a.lamport == b.lamport && id_lt(a.id, b.id))
}

/// `c` replays (`forward`) or retracts the recorded operation of its identity.
pub open spec fn recorded_change(m: Map<ID, (u32, GraphOp)>, c: GraphChange, forward: bool) -> bool {
    &&& m.contains_key(c.id)
    &&& c.lamport == m[c.id].0
    &&& same_op(c.op, m[c.id].1)
    &&& c.forward == forward
}

/// `part` holds one change for each recorded operation within `spans`,
/// ordered by clock, ascending or descending.
pub open spec fn diff_part(
    m: Map<ID, (u32, GraphOp)>,
    spans: Seq<(u64, i32, i32)>,
    part: Seq<GraphChange>,
    forward: bool,
    ascending: bool,
) -> bool {
    &&& forall|k: int|
        0 <= k < part.len() ==> recorded_change(m, #[trigger] part[k], forward) && in_spans(spans, part[k].id)
    &&& forall|x: ID| m.contains_key(x) && in_spans(spans, x) ==> exists|k: int| 0 <= k < part.len() && (#[trigger] part[k]).id == x
    &&& forall|i: int, j: int|
        0 <= i < j < part.len() ==> if ascending {
            clock_lt(#[trigger] part[i], #[trigger] part[j])
        } else {
            clock_lt(part[j], part[i])
        }
}

/// `y` is the object created by a recorded creation within `spans`.
pub open spec fn created_in(m: Map<ID, (u32, GraphOp)>, spans: Seq<(u64, i32, i32)>, y: ID) -> bool {
    exists|x: ID|
        #![trigger m[x]]
        m.contains_key(x) && in_spans(spans, x) && is_creation(m[x].1) && y == op_object(m[x].1)
}

/// A recorded operation creates a node or an edge.
pub open spec fn is_creation(op: GraphOp) -> bool {
    op is CreateNode || op is CreateEdge
}

fn in_spans_exec(spans: &Vec<(u64, i32, i32)>, x: ID) -> (r: bool)
    ensures
        r == in_spans(spans@, x),
{
    let mut j: usize = 0;
    while j < spans.len()
        invariant
            j <= spans@.len(),
            forall|q: int|
                0 <= q < j ==> !((#[trigger] spans@[q]).0 == x.peer && spans@[q].1 <= x.counter < spans@[q].2),
        decreases spans@.len() - j,
    {
        if spans[j].0 == x.peer && spans[j].1 <= x.counter && x.counter < spans[j].2 {
            return true;
        }
        j += 1;
    }
    false
}

fn clock_less(a: &GraphChange, b: &GraphChange) -> (r: bool)
    ensures
        r == clock_lt(*a, *b),
{
    a.lamport < b.lamport || (a.lamport == b.lamport && id_less(a.id, b.id))
}

/// Sort changes with distinct identities by clock, ascending.
fn sort_by_clock(v: Vec<GraphChange>) -> (r: Vec<GraphChange>)
    requires
        forall|i: int, j: int| 0 <= i < j < v@.len() ==> (#[trigger] v@[i]).id != (#[trigger] v@[j]).id,
    ensures
        forall|x: GraphChange| #[trigger] r@.contains(x) <==> v@.contains(x),
        forall|i: int, j: int| 0 <= i < j < r@.len() ==> clock_lt(#[trigger] r@[i], #[trigger] r@[j]),
{
    let ghost orig = v@;
    let mut rest = v;
    let mut out: Vec<GraphChange> = Vec::new();
    while rest.len() > 0
        invariant
            forall|x: GraphChange| #[trigger] orig.contains(x) <==> rest@.contains(x) || out@.contains(x),
            forall|i: int, j: int| 0 <= i < j < rest@.len() ==> (#[trigger] rest@[i]).id != (#[trigger] rest@[j]).id,
            forall|i: int, j: int|
                0 <= i < rest@.len() && 0 <= j < out@.len() ==> (#[trigger] rest@[i]).id != (#[trigger] out@[j]).id,
            forall|i: int, j: int| 0 <= i < j < out@.len() ==> clock_lt(#[trigger] out@[i], #[trigger] out@[j]),
        decreases rest@.len(),
    {
        let ghost old_rest = rest@;
        let ghost old_out = out@;
        let x = rest.pop().unwrap();
        proof {
            assert(old_rest[old_rest.len() - 1] == x);
            assert(rest@ =~= old_rest.drop_last());
        }
        let mut p: usize = 0;
        while p < out.len() && !clock_less(&x, &out[p])
            invariant
                out@ == old_out,
                p <= out@.len(),
                forall|j: int| 0 <= j < out@.len() ==> x.id != (#[trigger] out@[j]).id,
                forall|q: int| 0 <= q < p ==> clock_lt(#[trigger] out@[q], x),
            decreases out@.len() - p,
        {
            proof {
                assert(x.id != out@[p as int].id);
            }
            p += 1;
        }
        out.insert(p, x);
        proof {
            assert(out@ == old_out.insert(p as int, x));
            assert forall|i: int, j: int| 0 <= i < j < out@.len() implies clock_lt(
                #[trigger] out@[i],
                #[trigger] out@[j],
            ) by {
                if j < p {
                    assert(out@[i] == old_out[i] && out@[j] == old_out[j]);
                } else if j == p {
                    assert(out@[i] == old_out[i]);
                } else if i == p {
                    assert(out@[j] == old_out[j - 1]);
                    assert(clock_lt(x, old_out[p as int]));
                    if j - 1 > p {
                        assert(clock_lt(old_out[p as int], old_out[j - 1]));
                    }
                } else if i < p {
                    assert(out@[i] == old_out[i] && out@[j] == old_out[j - 1]);
                } else {
                    assert(out@[i] == old_out[i - 1] && out@[j] == old_out[j - 1]);
                }
            }
            assert forall|y: GraphChange| #[trigger] orig.contains(y) <==> rest@.contains(y) || out@.contains(y) by {
                if old_rest.contains(y) {
                    let q = choose|q: int| 0 <= q < old_rest.len() && old_rest[q] == y;
                    if q < old_rest.len() - 1 {
                        assert(rest@[q] == y);
                    } else {
                        assert(out@[p as int] == y);
                    }
                }
                if old_out.contains(y) {
                    let q = choose|q: int| 0 <= q < old_out.len() && old_out[q] == y;
                    if q < p {
                        assert(out@[q] == y);
                    } else {
                        assert(out@[q + 1] == y);
                    }
                }
                if rest@.contains(y) {
                    let q = choose|q: int| 0 <= q < rest@.len() && rest@[q] == y;
                    assert(old_rest[q] == y);
                }
                if out@.contains(y) {
                    let q = choose|q: int| 0 <= q < out@.len() && out@[q] == y;
                    if q < p {
                        assert(old_out[q] == y);
                    } else if q == p {
                        assert(old_rest[old_rest.len() - 1] == y);
                    } else {
                        assert(old_out[q - 1] == y);
                    }
                }
            }
            assert forall|i: int, j: int|
                0 <= i < rest@.len() && 0 <= j < out@.len() implies (#[trigger] rest@[i]).id != (
                #[trigger] out@[j]).id by {
                assert(rest@[i] == old_rest[i]);
                if j < p {
                    assert(out@[j] == old_out[j]);
                } else if j == p {
                    assert(old_rest[old_rest.len() - 1] == x);
                } else {
                    assert(out@[j] == old_out[j - 1]);
                }
            }
        }
    }
    proof {
        assert forall|y: GraphChange| #[trigger] out@.contains(y) <==> orig.contains(y) by {
            if rest@.contains(y) {
                let q = choose|q: int| 0 <= q < rest@.len() && rest@[q] == y;
            }
        }
    }
    out
}

/// Collects the graph operations of applied history by identity.
pub struct GraphDiffCalculator {
    pub ops: IdMap<(u32, GraphOp)>,
}

impl GraphDiffCalculator {
    pub open spec fn wf(&self) -> bool {
        self.ops.wf()
    }

    pub fn new() -> (r: GraphDiffCalculator)
        ensures
            r.wf(),
            r.ops@ == Map::<ID, (u32, GraphOp)>::empty(),
    {
        GraphDiffCalculator { ops: IdMap::new() }
    }

    /// Record an applied graph operation with its Lamport clock.
    pub fn apply_change(&mut self, id: ID, lamport: u32, op: GraphOp)
        requires
            old(self).wf(),
        ensures
            final(self).wf(),
            final(self).ops@ == old(self).ops@.insert(id, (lamport, op)),
    {
        self.ops.insert(id, (lamport, op));
    }

    /// The recorded operations within `spans`, as changes in identity order.
    fn collect(&self, spans: &Vec<(u64, i32, i32)>, forward: bool) -> (r: Vec<GraphChange>)
        requires
            self.wf(),
        ensures
            forall|k: int|
                0 <= k < r@.len() ==> recorded_change(self.ops@, #[trigger] r@[k], forward) && in_spans(
                    spans@,
                    r@[k].id,
                ),
            forall|x: ID|
                self.ops@.contains_key(x) && in_spans(spans@, x) ==> exists|k: int|
                    0 <= k < r@.len() && (#[trigger] r@[k]).id == x,
            forall|i: int, j: int| 0 <= i < j < r@.len() ==> id_lt((#[trigger] r@[i]).id, (#[trigger] r@[j]).id),
    {
        let mut r: Vec<GraphChange> = Vec::new();
        let mut i: usize = 0;
        proof {
            self.ops.lemma_view();
        }
        while i < self.ops.entries.len()
            invariant
                self.wf(),
                i <= self.ops.entries@.len(),
                forall|k: int|
                    0 <= k < r@.len() ==> recorded_change(self.ops@, #[trigger] r@[k], forward) && in_spans(
                        spans@,
                        r@[k].id,
                    ),
                forall|k: int|
                    0 <= k < r@.len() ==> exists|q: int| 0 <= q < i && (#[trigger] r@[k]).id == self.ops.keys()[q],
                forall|q: int|
                    0 <= q < i && in_spans(spans@, #[trigger] self.ops.keys()[q]) ==> exists|k: int|
                        0 <= k < r@.len() && (#[trigger] r@[k]).id == self.ops.keys()[q],
                forall|a: int, b: int| 0 <= a < b < r@.len() ==> id_lt((#[trigger] r@[a]).id, (#[trigger] r@[b]).id),
            decreases self.ops.entries@.len() - i,
        {
            let id = self.ops.entries[i].0;
            proof {
                self.ops.lemma_at(i as int);
                assert(self.ops.keys()[i as int] == id);
            }
            if in_spans_exec(spans, id) {
                let lamport = self.ops.entries[i].1.0;
                let op = self.ops.entries[i].1.1.duplicate();
                let ghost before = r@;
                r.push(GraphChange { id, lamport, op, forward });
                proof {
                    assert forall|a: int, b: int| 0 <= a < b < r@.len() implies id_lt(
                        (#[trigger] r@[a]).id,
                        (#[trigger] r@[b]).id,
                    ) by {
                        if b == before.len() {
                            let q = choose|q: int| 0 <= q < i && (#[trigger] before[a]).id == self.ops.keys()[q];
                            assert(id_lt(self.ops.keys()[q], self.ops.keys()[i as int]));
                        } else {
                            assert(r@[a] == before[a] && r@[b] == before[b]);
                        }
                    }
                    assert forall|k: int| 0 <= k < r@.len() implies exists|q: int|
                        0 <= q < i + 1 && (#[trigger] r@[k]).id == self.ops.keys()[q] by {
                        if k < before.len() {
                            assert(r@[k] == before[k]);
                        } else {
                            assert(r@[k].id == self.ops.keys()[i as int]);
                        }
                    }
                    assert forall|q: int|
                        0 <= q < i + 1 && in_spans(spans@, #[trigger] self.ops.keys()[q]) implies exists|k: int|
                        0 <= k < r@.len() && (#[trigger] r@[k]).id == self.ops.keys()[q] by {
                        if q < i {
                            let k = choose|k: int| 0 <= k < before.len() && (#[trigger] before[k]).id == self.ops.keys()[q];
                            assert(r@[k] == before[k]);
                        } else {
                            assert(r@[before.len() as int].id == self.ops.keys()[q]);
                        }
                    }
                    assert forall|k: int| 0 <= k < r@.len() implies recorded_change(
                        self.ops@,
                        #[trigger] r@[k],
                        forward,
                    ) && in_spans(spans@, r@[k].id) by {
                        if k < before.len() {
                            assert(r@[k] == before[k]);
                        }
                    }
                }
            }
            i += 1;
        }
        proof {
            assert forall|x: ID| self.ops@.contains_key(x) && in_spans(spans@, x) implies exists|k: int|
                0 <= k < r@.len() && (#[trigger] r@[k]).id == x by {
                let q = self.ops.keys().index_of(x);
                assert(self.ops.keys()[q] == x);
            }
        }
        r
    }

    /// One part of a diff: the recorded operations within `spans` as changes,
    /// ordered by clock.
    fn part(&self, spans: &Vec<(u64, i32, i32)>, forward: bool, ascending: bool) -> (r: Vec<GraphChange>)
        requires
            self.wf(),
        ensures
            diff_part(self.ops@, spans@, r@, forward, ascending),
    {
        let c = self.collect(spans, forward);
        let ghost cg = c@;
        let s = sort_by_clock(c);
        let ghost m = self.ops@;
        proof {
            assert forall|k: int| 0 <= k < s@.len() implies recorded_change(m, #[trigger] s@[k], forward) && in_spans(
                spans@,
                s@[k].id,
            ) by {
                assert(s@.contains(s@[k]));
                let q = choose|q: int| 0 <= q < cg.len() && cg[q] == s@[k];
            }
            assert forall|x: ID| m.contains_key(x) && in_spans(spans@, x) implies exists|k: int|
                0 <= k < s@.len() && (#[trigger] s@[k]).id == x by {
                let q = choose|q: int| 0 <= q < cg.len() && (#[trigger] cg[q]).id == x;
                assert(cg.contains(cg[q]));
                assert(s@.contains(cg[q]));
                let k = choose|k: int| 0 <= k < s@.len() && s@[k] == cg[q];
            }
        }
        if ascending {
            return s;
        }
        let ghost asc = s@;
        let mut rest = s;
        let mut out: Vec<GraphChange> = Vec::new();
        while rest.len() > 0
            invariant
                rest@ == asc.subrange(0, rest@.len() as int),
                out@.len() + rest@.len() == asc.len(),
                forall|k: int| 0 <= k < out@.len() ==> #[trigger] out@[k] == asc[asc.len() - 1 - k],
            decreases rest@.len(),
        {
            let ghost n = rest@.len();
            let c = rest.pop().unwrap();
            proof {
                assert(c == asc[n - 1]);
            }
            out.push(c);
            proof {
                assert(rest@ =~= asc.subrange(0, rest@.len() as int));
                assert(out@[out@.len() - 1] == asc[asc.len() - 1 - (out@.len() - 1)]);
            }
        }
        proof {
            assert forall|k: int| 0 <= k < out@.len() implies recorded_change(m, #[trigger] out@[k], forward) && in_spans(
                spans@,
                out@[k].id,
            ) by {
                assert(out@[k] == asc[asc.len() - 1 - k]);
            }
            assert forall|x: ID| m.contains_key(x) && in_spans(spans@, x) implies exists|k: int|
                0 <= k < out@.len() && (#[trigger] out@[k]).id == x by {
                let j = choose|j: int| 0 <= j < asc.len() && (#[trigger] asc[j]).id == x;
                assert(out@[asc.len() - 1 - j] == asc[j]);
            }
            assert forall|i: int, j: int| 0 <= i < j < out@.len() implies clock_lt(
                #[trigger] out@[j],
                #[trigger] out@[i],
            ) by {
                assert(out@[i] == asc[asc.len() - 1 - i]);
                assert(out@[j] == asc[asc.len() - 1 - j]);
            }
        }
        out
    }

    /// The objects that the recorded creations within `spans` create, in identity order.
    fn created_objects(&self, spans: &Vec<(u64, i32, i32)>) -> (r: Vec<ID>)
        requires
            self.wf(),
        ensures
            forall|k: int|
                0 <= k < r@.len() ==> created_in(self.ops@, spans@, #[trigger] r@[k]),
            forall|x: ID|
                self.ops@.contains_key(x) && in_spans(spans@, x) && is_creation(self.ops@[x].1) ==> r@.contains(
                    op_object(#[trigger] self.ops@[x].1),
                ),
    {
        let mut r: Vec<ID> = Vec::new();
        let mut i: usize = 0;
        proof {
            self.ops.lemma_view();
        }
        while i < self.ops.entries.len()
            invariant
                self.wf(),
                i <= self.ops.entries@.len(),
                forall|k: int|
                    0 <= k < r@.len() ==> created_in(self.ops@, spans@, #[trigger] r@[k]),
                forall|q: int|
                    0 <= q < i && in_spans(spans@, #[trigger] self.ops.keys()[q]) && is_creation(
                        self.ops@[self.ops.keys()[q]].1,
                    ) ==> r@.contains(op_object(self.ops@[self.ops.keys()[q]].1)),
            decreases self.ops.entries@.len() - i,
        {
            let id = self.ops.entries[i].0;
            proof {
                self.ops.lemma_at(i as int);
            }
            let op = &self.ops.entries[i].1.1;
            let creation = match op {
                GraphOp::CreateNode { .. } => true,
                GraphOp::CreateEdge { .. } => true,
                _ => false,
            };
            if creation && in_spans_exec(spans, id) {
                let ghost before = r@;
                r.push(op.object());
                proof {
                    assert forall|k: int| 0 <= k < r@.len() implies created_in(self.ops@, spans@, #[trigger] r@[k]) by {
                        if k < before.len() {
                            assert(r@[k] == before[k]);
                        } else {
                            assert(r@[k] == op_object(self.ops@[id].1));
                            assert(self.ops@.contains_key(id) && in_spans(spans@, id) && is_creation(self.ops@[id].1));
                        }
                    }
                    assert forall|q: int|
                        0 <= q < i + 1 && in_spans(spans@, #[trigger] self.ops.keys()[q]) && is_creation(
                            self.ops@[self.ops.keys()[q]].1,
                        ) implies r@.contains(op_object(self.ops@[self.ops.keys()[q]].1)) by {
                        if q < i {
                            let k = choose|k: int|
                                0 <= k < before.len() && before[k] == op_object(self.ops@[self.ops.keys()[q]].1);
                            assert(r@[k] == before[k]);
                        } else {
                            assert(r@[before.len() as int] == op_object(self.ops@[id].1));
                        }
                    }
                }
            }
            i += 1;
        }
        proof {
            assert forall|x: ID|
                self.ops@.contains_key(x) && in_spans(spans@, x) && is_creation(self.ops@[x].1) implies r@.contains(
                op_object(#[trigger] self.ops@[x].1),
            ) by {
                let q = self.ops.keys().index_of(x);
                assert(self.ops.keys()[q] == x);
            }
        }
        r
    }

    /// The diff from one version to another: the recorded operations within
    /// the `removed` spans are retracted, latest clock first; then those within
    /// the `added` spans are replayed, earliest clock first. Also returns the
    /// identities of the objects that the replayed operations create.
    pub fn calculate_diff(&self, removed: &Vec<(u64, i32, i32)>, added: &Vec<(u64, i32, i32)>) -> (r: (
        GraphDiff,
        Vec<ID>,
    ))
        requires
            self.wf(),
        ensures
            r.0.wf(),
            r.0.nodes@ == Map::<ID, Option<crate::op::GraphNode>>::empty(),
            r.0.edges@ == Map::<ID, Option<crate::op::GraphEdge>>::empty(),
            r.0.orders@ == Map::<ID, crate::op::GraphOrderDelta>::empty(),
            exists|nb: int|
                0 <= nb <= r.0.ops@.len() && diff_part(self.ops@, removed@, r.0.ops@.subrange(0, nb), false, false)
                    && diff_part(self.ops@, added@, r.0.ops@.subrange(nb, r.0.ops@.len() as int), true, true),
            forall|k: int|
                0 <= k < r.1@.len() ==> created_in(self.ops@, added@, #[trigger] r.1@[k]),
            forall|x: ID|
                self.ops@.contains_key(x) && in_spans(added@, x) && is_creation(self.ops@[x].1) ==> r.1@.contains(
                    op_object(#[trigger] self.ops@[x].1),
                ),
    {
        let mut ops = self.part(removed, false, false);
        let ghost back = ops@;
        let mut forward = self.part(added, true, true);
        let ghost fwd = forward@;
        ops.append(&mut forward);
        proof {
            assert(ops@.subrange(0, back.len() as int) =~= back);
            assert(ops@.subrange(back.len() as int, ops@.len() as int) =~= fwd);
        }
        let created = self.created_objects(added);
        let mut d = GraphDiff::new();
        d.ops = ops;
        proof {
            let nb = back.len() as int;
            assert(d.ops@.subrange(0, nb) == back);
            assert(d.ops@.subrange(nb, d.ops@.len() as int) == fwd);
            assert(0 <= nb <= d.ops@.len() && diff_part(self.ops@, removed@, d.ops@.subrange(0, nb), false, false)
                && diff_part(self.ops@, added@, d.ops@.subrange(nb, d.ops@.len() as int), true, true));
        }
        (d, created)
    }
}

} // verus!
