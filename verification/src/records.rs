//! The persisted form of a graph: its lifecycle and order records as plain lists,
//! and the checks a decoded snapshot must pass before it becomes a graph state.
use vstd::prelude::*;
use crate::ids::{ID, GraphNodeId, GraphEdgeId, IdLp};
use crate::idmap::fold_pairs;
use crate::idmap::IdMap;
use crate::life::{Life, LifeView, spec_delete, spec_restore};
use crate::register::{Register, RegisterView};
use crate::position::GraphPosition;
use crate::op::GraphError;
use crate::state::{GraphState, GraphView, EdgeView, Edge};

verus! {

/// A lifecycle: creation clock, delete tags with their clocks, restores with
/// their clocks and the tags they name.
pub struct LifeRecord {
    pub created_at: u32,
    pub deletes: Vec<(ID, u32)>,
    pub restores: Vec<(ID, u32, Vec<ID>)>,
}

pub struct NodeRecord {
    pub id: GraphNodeId,
    pub life: LifeRecord,
}

pub struct EdgeRecord {
    pub id: GraphEdgeId,
    pub source: GraphNodeId,
    pub target: GraphNodeId,
    pub life: LifeRecord,
    /// Order writes: writer `(peer, lamport)`, its counter, and the key written.
    pub orders: Vec<(IdLp, i32, GraphPosition)>,
}

pub struct Records {
    pub nodes: Vec<NodeRecord>,
    pub edges: Vec<EdgeRecord>,
}

/// The map a list of delete tags describes; a later entry replaces an earlier one.
pub open spec fn deletes_map(s: Seq<(ID, u32)>) -> Map<ID, u32>
    decreases s.len(),
{
    if s.len() == 0 { Map::empty() } else { deletes_map(s.drop_last()).insert(s.last().0, s.last().1) }
}

pub open spec fn restores_map(s: Seq<(ID, u32, Vec<ID>)>) -> Map<ID, (u32, Seq<ID>)>
    decreases s.len(),
{
    if s.len() == 0 { Map::empty() } else { restores_map(s.drop_last()).insert(s.last().0, (s.last().1, s.last().2@)) }
}

pub open spec fn writes_map(s: Seq<(IdLp, i32, GraphPosition)>) -> RegisterView
    decreases s.len(),
{
    if s.len() == 0 { Map::empty() } else { writes_map(s.drop_last()).insert(s.last().0, (s.last().1, s.last().2@)) }
}

pub open spec fn life_of(l: LifeRecord) -> LifeView {
    LifeView { created_at: l.created_at, deletes: deletes_map(l.deletes@), restores: restores_map(l.restores@) }
}

pub open spec fn nodes_map(s: Seq<NodeRecord>) -> Map<ID, LifeView>
    decreases s.len(),
{
    if s.len() == 0 { Map::empty() } else { nodes_map(s.drop_last()).insert(s.last().id.spec_id(), life_of(s.last().life)) }
}

pub open spec fn edge_of(e: EdgeRecord) -> EdgeView {
    EdgeView { source: e.source.spec_id(), target: e.target.spec_id(), life: life_of(e.life), orders: writes_map(e.orders@) }
}

pub open spec fn edges_map(s: Seq<EdgeRecord>) -> Map<ID, EdgeView>
    decreases s.len(),
{
    if s.len() == 0 { Map::empty() } else { edges_map(s.drop_last()).insert(s.last().id.spec_id(), edge_of(s.last())) }
}

/// The graph that records describe.
pub open spec fn records_view(rec: Records) -> GraphView {
    GraphView { nodes: nodes_map(rec.nodes@), edges: edges_map(rec.edges@) }
}

/// Operation identities a lifecycle names: its delete tags, then its restores.
pub open spec fn life_ids(l: LifeRecord) -> Seq<ID> {
    l.deletes@.map_values(|d: (ID, u32)| d.0) + l.restores@.map_values(|r: (ID, u32, Vec<ID>)| r.0)
}

pub open spec fn node_list_ids(s: Seq<NodeRecord>) -> Seq<ID>
    decreases s.len(),
{
    if s.len() == 0 { Seq::empty() } else { node_list_ids(s.drop_last()) + seq![s.last().id.spec_id()] + life_ids(s.last().life) }
}

pub open spec fn edge_list_ids(s: Seq<EdgeRecord>) -> Seq<ID>
    decreases s.len(),
{
    if s.len() == 0 { Seq::empty() } else { edge_list_ids(s.drop_last()) + seq![s.last().id.spec_id()] + life_ids(s.last().life) }
}

/// The write that created edge `e`.
pub open spec fn creation_write(e: EdgeRecord) -> IdLp {
    IdLp { peer: e.id.peer, lamport: e.life.created_at }
}

/// Identities of the order writes other than the creation.
pub open spec fn write_ids(s: Seq<(IdLp, i32, GraphPosition)>, creation: IdLp) -> Seq<ID>
    decreases s.len(),
{
    if s.len() == 0 {
        Seq::empty()
    } else if s.last().0 == creation {
        write_ids(s.drop_last(), creation)
    } else {
        write_ids(s.drop_last(), creation).push(ID { peer: s.last().0.peer, counter: s.last().1 })
    }
}

pub open spec fn order_list_ids(s: Seq<EdgeRecord>) -> Seq<ID>
    decreases s.len(),
{
    if s.len() == 0 { Seq::empty() } else { order_list_ids(s.drop_last()) + write_ids(s.last().orders@, creation_write(s.last())) }
}

/// Every operation identity the records name, in the order they are checked.
pub open spec fn all_ids(rec: Records) -> Seq<ID> {
    node_list_ids(rec.nodes@) + edge_list_ids(rec.edges@) + order_list_ids(rec.edges@)
}

/// A lifecycle is consistent: its operations are nonnegative and later than the
/// creation, and each restore names distinct, earlier delete tags.
pub open spec fn life_ok(l: LifeRecord) -> bool {
    &&& forall|i: int| 0 <= i < l.deletes@.len() ==> (#[trigger] l.deletes@[i]).0.counter >= 0 && l.deletes@[i].1 > l.created_at
    &&& forall|j: int| 0 <= j < l.restores@.len() ==> restore_ok(l, #[trigger] l.restores@[j])
}

pub open spec fn restore_ok(l: LifeRecord, r: (ID, u32, Vec<ID>)) -> bool {
    &&& r.0.counter >= 0
    &&& r.1 > l.created_at
    &&& r.2@.no_duplicates()
    &&& forall|k: int| 0 <= k < r.2@.len() ==> deletes_map(l.deletes@).contains_key(#[trigger] r.2@[k])
        && deletes_map(l.deletes@)[r.2@[k]] < r.1
}

/// An edge's order writes: one distinct writer each, the creation among them
/// with the edge's own counter, and every other write nonnegative and later.
pub open spec fn orders_ok(e: EdgeRecord) -> bool {
    let c = creation_write(e);
    let w = e.orders@;
    &&& forall|a: int, b: int| 0 <= a < b < w.len() ==> (#[trigger] w[a]).0 != (#[trigger] w[b]).0
    &&& exists|k: int| 0 <= k < w.len() && (#[trigger] w[k]).0 == c && w[k].1 == e.id.counter
    &&& forall|k: int| 0 <= k < w.len() && (#[trigger] w[k]).0 != c ==> w[k].1 >= 0 && w[k].0.lamport > c.lamport
}

/// Records that decode into a graph.
pub open spec fn records_valid(rec: Records) -> bool {
    &&& all_ids(rec).no_duplicates()
    &&& forall|i: int| 0 <= i < rec.nodes@.len() ==> (#[trigger] rec.nodes@[i]).id.counter >= 0 && life_ok(rec.nodes@[i].life)
    &&& forall|i: int| 0 <= i < rec.edges@.len() ==> edge_record_ok(rec, #[trigger] rec.edges@[i])
}

pub open spec fn edge_record_ok(rec: Records, e: EdgeRecord) -> bool {
    &&& e.id.counter >= 0
    &&& life_ok(e.life)
    &&& orders_ok(e)
    &&& nodes_map(rec.nodes@).contains_key(e.source.spec_id())
    &&& nodes_map(rec.nodes@).contains_key(e.target.spec_id())
}

/// Whether the identities are pairwise distinct.
fn distinct_ids(v: &Vec<ID>) -> (r: bool)
    ensures
        r == v@.no_duplicates(),
{
    let mut seen: IdMap<()> = IdMap::new();
    let mut i: usize = 0;
    while i < v.len()
        invariant
            seen.wf(),
            i <= v@.len(),
            v@.subrange(0, i as int).no_duplicates(),
            forall|x: ID| #[trigger] seen@.contains_key(x) <==> v@.subrange(0, i as int).contains(x),
        decreases v@.len() - i,
    {
        if seen.contains_key(v[i]) {
            proof {
                let k = choose|k: int| 0 <= k < i && v@.subrange(0, i as int)[k] == v@[i as int];
                assert(v@[k] == v@[i as int]);
            }
            return false;
        }
        seen.insert(v[i], ());
        proof {
            let a = v@.subrange(0, i as int);
            let b = v@.subrange(0, i + 1);
            assert(b == a.push(v@[i as int]));
            assert forall|x: ID| #[trigger] seen@.contains_key(x) <==> b.contains(x) by {
                if a.contains(x) {
                    let k = choose|k: int| 0 <= k < a.len() && a[k] == x;
                    assert(b[k] == x);
                }
                if b.contains(x) && x != v@[i as int] {
                    let k = choose|k: int| 0 <= k < b.len() && b[k] == x;
                    assert(a[k] == x);
                }
                if x == v@[i as int] {
                    assert(b[i as int] == x);
                }
            }
        }
        i += 1;
    }
    proof { assert(v@.subrange(0, v@.len() as int) =~= v@); }
    true
}

/// Append the identities of one lifecycle.
fn push_life_ids(out: &mut Vec<ID>, l: &LifeRecord)
    ensures
        final(out)@ == old(out)@ + life_ids(*l),
{
    let ghost o0 = out@;
    let mut i: usize = 0;
    while i < l.deletes.len()
        invariant
            i <= l.deletes@.len(),
            out@ == o0 + l.deletes@.map_values(|d: (ID, u32)| d.0).subrange(0, i as int),
        decreases l.deletes@.len() - i,
    {
        out.push(l.deletes[i].0);
        i += 1;
        assert(out@ =~= o0 + l.deletes@.map_values(|d: (ID, u32)| d.0).subrange(0, i as int));
    }
    let ghost o1 = out@;
    assert(l.deletes@.map_values(|d: (ID, u32)| d.0).subrange(0, l.deletes@.len() as int) =~= l.deletes@.map_values(|d: (ID, u32)| d.0));
    let mut j: usize = 0;
    while j < l.restores.len()
        invariant
            j <= l.restores@.len(),
            out@ == o1 + l.restores@.map_values(|r: (ID, u32, Vec<ID>)| r.0).subrange(0, j as int),
        decreases l.restores@.len() - j,
    {
        out.push(l.restores[j].0);
        j += 1;
        assert(out@ =~= o1 + l.restores@.map_values(|r: (ID, u32, Vec<ID>)| r.0).subrange(0, j as int));
    }
    assert(l.restores@.map_values(|r: (ID, u32, Vec<ID>)| r.0).subrange(0, l.restores@.len() as int) =~= l.restores@.map_values(|r: (ID, u32, Vec<ID>)| r.0));
    assert(out@ =~= o0 + life_ids(*l));
}

/// Every identity the records name, in checking order.
fn collect_ids(rec: &Records) -> (r: Vec<ID>)
    ensures
        r@ == all_ids(*rec),
{
    let mut out: Vec<ID> = Vec::new();
    let mut i: usize = 0;
    while i < rec.nodes.len()
        invariant
            i <= rec.nodes@.len(),
            out@ == node_list_ids(rec.nodes@.subrange(0, i as int)),
        decreases rec.nodes@.len() - i,
    {
        proof { assert(rec.nodes@.subrange(0, i + 1).drop_last() =~= rec.nodes@.subrange(0, i as int)); }
        out.push(rec.nodes[i].id.id());
        push_life_ids(&mut out, &rec.nodes[i].life);
        i += 1;
    }
    proof { assert(rec.nodes@.subrange(0, rec.nodes@.len() as int) =~= rec.nodes@); }
    let ghost o1 = out@;
    let mut i: usize = 0;
    while i < rec.edges.len()
        invariant
            i <= rec.edges@.len(),
            out@ == o1 + edge_list_ids(rec.edges@.subrange(0, i as int)),
        decreases rec.edges@.len() - i,
    {
        proof { assert(rec.edges@.subrange(0, i + 1).drop_last() =~= rec.edges@.subrange(0, i as int)); }
        let ghost before = out@;
        out.push(rec.edges[i].id.id());
        push_life_ids(&mut out, &rec.edges[i].life);
        proof {
            assert(out@ =~= o1 + edge_list_ids(rec.edges@.subrange(0, i + 1)));
        }
        i += 1;
    }
    proof { assert(rec.edges@.subrange(0, rec.edges@.len() as int) =~= rec.edges@); }
    let ghost o2 = out@;
    let mut i: usize = 0;
    while i < rec.edges.len()
        invariant
            i <= rec.edges@.len(),
            out@ == o2 + order_list_ids(rec.edges@.subrange(0, i as int)),
        decreases rec.edges@.len() - i,
    {
        proof { assert(rec.edges@.subrange(0, i + 1).drop_last() =~= rec.edges@.subrange(0, i as int)); }
        let e = &rec.edges[i];
        let creation = IdLp { peer: e.id.peer, lamport: e.life.created_at };
        let ghost o3 = out@;
        let mut k: usize = 0;
        while k < e.orders.len()
            invariant
                k <= e.orders@.len(),
                creation == creation_write(*e),
                out@ == o3 + write_ids(e.orders@.subrange(0, k as int), creation),
            decreases e.orders@.len() - k,
        {
            proof { assert(e.orders@.subrange(0, k + 1).drop_last() =~= e.orders@.subrange(0, k as int)); }
            let w = e.orders[k].0;
            if w.peer != creation.peer || w.lamport != creation.lamport {
                out.push(ID { peer: w.peer, counter: e.orders[k].1 });
            }
            k += 1;
            proof { assert(out@ =~= o3 + write_ids(e.orders@.subrange(0, k as int), creation)); }
        }
        proof {
            assert(e.orders@.subrange(0, e.orders@.len() as int) =~= e.orders@);
            assert(out@ =~= o2 + order_list_ids(rec.edges@.subrange(0, i + 1)));
        }
        i += 1;
    }
    proof {
        assert(rec.edges@.subrange(0, rec.edges@.len() as int) =~= rec.edges@);
        assert(out@ =~= all_ids(*rec));
    }
    out
}

/// A lifecycle from its record, when the record is consistent.
pub fn build_life(l: &LifeRecord) -> (r: Option<Life>)
    ensures
        r is Some <==> life_ok(*l),
        r matches Some(x) ==> x.wf() && x@ == life_of(*l),
{
    let mut life = Life::new(l.created_at);
    let mut i: usize = 0;
    proof { assert(l.deletes@.subrange(0, 0) =~= Seq::<(ID, u32)>::empty()); }
    while i < l.deletes.len()
        invariant
            life.wf(),
            i <= l.deletes@.len(),
            life@ == (LifeView { created_at: l.created_at, deletes: deletes_map(l.deletes@.subrange(0, i as int)), restores: Map::empty() }),
            forall|k: int| 0 <= k < i ==> (#[trigger] l.deletes@[k]).0.counter >= 0 && l.deletes@[k].1 > l.created_at,
        decreases l.deletes@.len() - i,
    {
        let (t, lp) = l.deletes[i];
        if t.counter < 0 || lp <= l.created_at {
            return None;
        }
        life.delete(t, lp, true);
        proof {
            assert(l.deletes@.subrange(0, i + 1).drop_last() =~= l.deletes@.subrange(0, i as int));
        }
        i += 1;
    }
    proof { assert(l.deletes@.subrange(0, l.deletes@.len() as int) =~= l.deletes@); }
    let mut j: usize = 0;
    proof { assert(l.restores@.subrange(0, 0) =~= Seq::<(ID, u32, Vec<ID>)>::empty()); }
    while j < l.restores.len()
        invariant
            life.wf(),
            j <= l.restores@.len(),
            forall|k: int| 0 <= k < l.deletes@.len() ==> (#[trigger] l.deletes@[k]).0.counter >= 0 && l.deletes@[k].1 > l.created_at,
            life@ == (LifeView { created_at: l.created_at, deletes: deletes_map(l.deletes@), restores: restores_map(l.restores@.subrange(0, j as int)) }),
            forall|k: int| 0 <= k < j ==> restore_ok(*l, #[trigger] l.restores@[k]),
        decreases l.restores@.len() - j,
    {
        let r = &l.restores[j];
        if r.0.counter < 0 || r.1 <= l.created_at || !distinct_ids(&r.2) {
            return None;
        }
        let mut q: usize = 0;
        while q < r.2.len()
            invariant
                j < l.restores@.len(),
                *r == l.restores@[j as int],
                life.wf(),
                life@.deletes == deletes_map(l.deletes@),
                q <= r.2@.len(),
                forall|k: int| 0 <= k < q ==> deletes_map(l.deletes@).contains_key(#[trigger] r.2@[k]) && deletes_map(l.deletes@)[r.2@[k]] < r.1,
            decreases r.2@.len() - q,
        {
            let t = r.2[q];
            match life.deletes.get(t) {
                Some(dlp) => {
                    if *dlp >= r.1 {
                        proof {
                            assert(deletes_map(l.deletes@)[r.2@[q as int]] >= r.1);
                            assert(!restore_ok(*l, l.restores@[j as int]));
                        }
                        return None;
                    }
                },
                None => {
                    proof {
                        assert(!deletes_map(l.deletes@).contains_key(r.2@[q as int]));
                        assert(!restore_ok(*l, l.restores@[j as int]));
                    }
                    return None;
                },
            }
            q += 1;
        }
        life.restore(r.0, r.1, &r.2, true);
        proof {
            assert(l.restores@.subrange(0, j + 1).drop_last() =~= l.restores@.subrange(0, j as int));
            assert(restore_ok(*l, l.restores@[j as int]));
        }
        j += 1;
    }
    proof { assert(l.restores@.subrange(0, l.restores@.len() as int) =~= l.restores@); }
    Some(life)
}

/// Whether an edge's order writes are consistent.
fn check_orders(e: &EdgeRecord) -> (r: bool)
    ensures
        r == orders_ok(*e),
{
    let w = &e.orders;
    let c = IdLp { peer: e.id.peer, lamport: e.life.created_at };
    let mut found = false;
    let mut a: usize = 0;
    while a < w.len()
        invariant
            w@ == e.orders@,
            c == creation_write(*e),
            a <= w@.len(),
            forall|x: int, y: int| 0 <= x < a && x < y < w@.len() ==> (#[trigger] w@[x]).0 != (#[trigger] w@[y]).0,
            found <==> exists|k: int| 0 <= k < a && (#[trigger] w@[k]).0 == c && w@[k].1 == e.id.counter,
            forall|k: int| 0 <= k < a && (#[trigger] w@[k]).0 != c ==> w@[k].1 >= 0 && w@[k].0.lamport > c.lamport,
        decreases w@.len() - a,
    {
        let x = w[a].0;
        let mut b: usize = a + 1;
        while b < w.len()
            invariant
                w@ == e.orders@,
                a < b <= w@.len(),
                x == w@[a as int].0,
                forall|y: int| a < y < b ==> (#[trigger] w@[y]).0 != x,
            decreases w@.len() - b,
        {
            if w[b].0.peer == x.peer && w[b].0.lamport == x.lamport {
                assert(w@[b as int].0 == x);
                assert((w@[a as int]).0 == (w@[b as int]).0);
                return false;
            }
            b += 1;
        }
        let is_creation = x.peer == c.peer && x.lamport == c.lamport;
        if is_creation {
            if w[a].1 == e.id.counter {
                found = true;
            }
        } else if w[a].1 < 0 || x.lamport <= c.lamport {
            assert(w@[a as int].0 != c);
            return false;
        }
        a += 1;
    }
    found
}

/// Decode checks: the records become a graph state only when every operation
/// identity is distinct, every lifecycle is consistent, every edge's endpoints are
/// recorded nodes, and every edge keeps its creation write.
pub fn from_records(rec: &Records) -> (r: Result<GraphState, GraphError>)
    ensures
        r is Ok <==> records_valid(*rec),
        r matches Ok(s) ==> s.wf() && s@ == records_view(*rec) && s.jitter() == 0,
        r matches Err(e) ==> e == GraphError::InvalidOperation,
{
    let all = collect_ids(rec);
    if !distinct_ids(&all) {
        return Err(GraphError::InvalidOperation);
    }
    let mut nodes: IdMap<Life> = IdMap::new();
    let mut i: usize = 0;
    proof { assert(nodes@.map_values(|l: Life| l@) =~= nodes_map(rec.nodes@.subrange(0, 0))); }
    while i < rec.nodes.len()
        invariant
            all_ids(*rec).no_duplicates(),
            i <= rec.nodes@.len(),
            nodes.wf(),
            forall|n: ID| #[trigger] nodes@.contains_key(n) ==> nodes@[n].wf(),
            nodes@.map_values(|l: Life| l@) == nodes_map(rec.nodes@.subrange(0, i as int)),
            forall|k: int| 0 <= k < i ==> (#[trigger] rec.nodes@[k]).id.counter >= 0 && life_ok(rec.nodes@[k].life),
        decreases rec.nodes@.len() - i,
    {
        let n = &rec.nodes[i];
        if n.id.counter < 0 {
            return Err(GraphError::InvalidOperation);
        }
        let life = match build_life(&n.life) {
            Some(l) => l,
            None => {
                return Err(GraphError::InvalidOperation);
            },
        };
        let ghost lv = life@;
        let ghost m0 = nodes@;
        nodes.insert(n.id.id(), life);
        proof {
            assert(rec.nodes@.subrange(0, i + 1).drop_last() =~= rec.nodes@.subrange(0, i as int));
            assert(nodes@.map_values(|l: Life| l@) =~= m0.map_values(|l: Life| l@).insert(n.id.spec_id(), lv));
        }
        i += 1;
    }
    proof { assert(rec.nodes@.subrange(0, rec.nodes@.len() as int) =~= rec.nodes@); }
    let mut edges: IdMap<Edge> = IdMap::new();
    let mut i: usize = 0;
    proof { assert(edges@.map_values(|e: Edge| e@) =~= edges_map(rec.edges@.subrange(0, 0))); }
    while i < rec.edges.len()
        invariant
            all_ids(*rec).no_duplicates(),
            forall|k: int| 0 <= k < rec.nodes@.len() ==> (#[trigger] rec.nodes@[k]).id.counter >= 0 && life_ok(rec.nodes@[k].life),
            nodes.wf(),
            forall|n: ID| #[trigger] nodes@.contains_key(n) ==> nodes@[n].wf(),
            nodes@.map_values(|l: Life| l@) == nodes_map(rec.nodes@),
            i <= rec.edges@.len(),
            edges.wf(),
            forall|x: ID| #[trigger] edges@.contains_key(x) ==> edges@[x].wf(),
            edges@.map_values(|e: Edge| e@) == edges_map(rec.edges@.subrange(0, i as int)),
            forall|k: int| 0 <= k < i ==> edge_record_ok(*rec, #[trigger] rec.edges@[k]),
        decreases rec.edges@.len() - i,
    {
        let e = &rec.edges[i];
        proof {
            assert(nodes@.map_values(|l: Life| l@).dom() == nodes@.dom());
        }
        if e.id.counter < 0 || !check_orders(e) || !nodes.contains_key(e.source.id()) || !nodes.contains_key(e.target.id()) {
            return Err(GraphError::InvalidOperation);
        }
        let life = match build_life(&e.life) {
            Some(l) => l,
            None => {
                return Err(GraphError::InvalidOperation);
            },
        };
        let mut orders = Register { writes: Vec::new() };
        proof {
            assert(orders@ =~= writes_map(e.orders@.subrange(0, 0)));
        }
        let mut k: usize = 0;
        while k < e.orders.len()
            invariant
                k <= e.orders@.len(),
                orders.wf(),
                orders@ == writes_map(e.orders@.subrange(0, k as int)),
            decreases e.orders@.len() - k,
        {
            let p = e.orders[k].2.duplicate();
            orders.insert(e.orders[k].0, e.orders[k].1, p);
            proof {
                assert(e.orders@.subrange(0, k + 1).drop_last() =~= e.orders@.subrange(0, k as int));
            }
            k += 1;
        }
        proof {
            assert(e.orders@.subrange(0, e.orders@.len() as int) =~= e.orders@);
            let ck = choose|q: int| 0 <= q < e.orders@.len() && (#[trigger] e.orders@[q]).0 == creation_write(*e) && e.orders@[q].1 == e.id.counter;
            lemma_writes_map_has(e.orders@, ck);
            orders.lemma_len();
            orders.lemma_values_valid();
            assert(orders@.dom().contains(creation_write(*e)));
            vstd::set_lib::lemma_set_empty_equivalency_len(orders@.dom());
        }
        let edge = Edge { source: e.source, target: e.target, life, orders };
        let ghost ev = edge@;
        let ghost m0 = edges@;
        edges.insert(e.id.id(), edge);
        proof {
            assert(rec.edges@.subrange(0, i + 1).drop_last() =~= rec.edges@.subrange(0, i as int));
            assert(edges@.map_values(|x: Edge| x@) =~= m0.map_values(|x: Edge| x@).insert(e.id.spec_id(), ev));
            assert(ev == edge_of(*e));
            assert(edge_record_ok(*rec, rec.edges@[i as int]));
        }
        i += 1;
    }
    proof {
        assert(rec.edges@.subrange(0, rec.edges@.len() as int) =~= rec.edges@);
    }
    Ok(GraphState::from_parts(nodes, edges))
}

/// A write listed in the records is in the register they describe.
proof fn lemma_writes_map_has(s: Seq<(IdLp, i32, GraphPosition)>, k: int)
    requires
        0 <= k < s.len(),
    ensures
        writes_map(s).contains_key(s[k].0),
    decreases s.len(),
{
    if k < s.len() - 1 {
        lemma_writes_map_has(s.drop_last(), k);
    }
}

/// A copy of a lifecycle's delete list matches its map.
proof fn lemma_deletes_fold(list: Seq<(ID, u32)>, entries: Seq<(ID, u32)>)
    requires
        list == entries,
    ensures
        deletes_map(list) == crate::idmap::fold_pairs(entries),
    decreases list.len(),
{
    if list.len() > 0 {
        lemma_deletes_fold(list.drop_last(), entries.drop_last());
    }
}

/// Restores listed pointwise from map entries describe the entries' map.
proof fn lemma_restores_fold(list: Seq<(ID, u32, Vec<ID>)>, entries: Seq<(ID, (u32, Vec<ID>))>)
    requires
        list.len() == entries.len(),
        forall|i: int| 0 <= i < list.len() ==> (#[trigger] list[i]).0 == entries[i].0 && list[i].1 == entries[i].1.0 && list[i].2@ == entries[i].1.1@,
    ensures
        restores_map(list) == crate::life::restores_view(crate::idmap::fold_pairs(entries)),
    decreases list.len(),
{
    if list.len() > 0 {
        lemma_restores_fold(list.drop_last(), entries.drop_last());
        let a = restores_map(list);
        let b = crate::life::restores_view(crate::idmap::fold_pairs(entries));
        assert(a =~= b);
    }
}

/// The register a writes list with distinct writers describes.
pub open spec fn reg_view(s: Seq<(IdLp, i32, GraphPosition)>) -> RegisterView {
    Map::new(
        |k: IdLp| exists|i: int| 0 <= i < s.len() && #[trigger] s[i].0 == k,
        |k: IdLp| {
            let i = choose|i: int| 0 <= i < s.len() && #[trigger] s[i].0 == k;
            (s[i].1, s[i].2@)
        },
    )
}

proof fn lemma_writes_fold(s: Seq<(IdLp, i32, GraphPosition)>)
    requires
        forall|i: int, j: int| 0 <= i < j < s.len() ==> (#[trigger] s[i]).0 != (#[trigger] s[j]).0,
    ensures
        writes_map(s) == reg_view(s),
    decreases s.len(),
{
    if s.len() > 0 {
        let t = s.drop_last();
        lemma_writes_fold(t);
        let last = s.len() - 1;
        assert forall|k: IdLp| #[trigger] writes_map(s).contains_key(k) <==> reg_view(s).contains_key(k) by {
            if reg_view(s).contains_key(k) && k != s.last().0 {
                let i = choose|i: int| 0 <= i < s.len() && #[trigger] s[i].0 == k;
                assert(t[i].0 == k);
            }
            if reg_view(t).contains_key(k) {
                let i = choose|i: int| 0 <= i < t.len() && #[trigger] t[i].0 == k;
                assert(s[i].0 == k);
            }
            if k == s.last().0 {
                assert(s[last].0 == k);
            }
        }
        assert forall|k: IdLp| #[trigger] writes_map(s).contains_key(k) implies writes_map(s)[k] == reg_view(s)[k] by {
            let i = choose|i: int| 0 <= i < s.len() && #[trigger] s[i].0 == k;
            if k == s.last().0 {
                assert(s[last].0 == k);
                assert(i == last);
            } else {
                assert(t[i].0 == k);
                let j = choose|j: int| 0 <= j < t.len() && #[trigger] t[j].0 == k;
                assert(s[j].0 == k);
                assert(i == j);
            }
        }
        assert(writes_map(s) =~= reg_view(s));
    }
}

/// A record of a lifecycle.
fn life_record(l: &Life) -> (r: LifeRecord)
    requires
        l.wf(),
    ensures
        life_of(r) == l@,
{
    let mut deletes: Vec<(ID, u32)> = Vec::new();
    let mut i: usize = 0;
    while i < l.deletes.entries.len()
        invariant
            i <= l.deletes.entries@.len(),
            deletes@ == l.deletes.entries@.subrange(0, i as int),
        decreases l.deletes.entries@.len() - i,
    {
        deletes.push(l.deletes.entries[i]);
        i += 1;
        assert(deletes@ =~= l.deletes.entries@.subrange(0, i as int));
    }
    assert(deletes@ =~= l.deletes.entries@);
    let mut restores: Vec<(ID, u32, Vec<ID>)> = Vec::new();
    let mut i: usize = 0;
    while i < l.restores.entries.len()
        invariant
            i <= l.restores.entries@.len(),
            restores@.len() == i,
            forall|k: int| 0 <= k < i ==> (#[trigger] restores@[k]).0 == l.restores.entries@[k].0 && restores@[k].1 == l.restores.entries@[k].1.0
                && restores@[k].2@ == l.restores.entries@[k].1.1@,
        decreases l.restores.entries@.len() - i,
    {
        let e = &l.restores.entries[i];
        restores.push((e.0, e.1.0, crate::life::copy_ids(&e.1.1)));
        i += 1;
    }
    let r = LifeRecord { created_at: l.created_at, deletes, restores };
    proof {
        lemma_deletes_fold(r.deletes@, l.deletes.entries@);
        crate::idmap::lemma_fold_view(&l.deletes);
        lemma_restores_fold(r.restores@, l.restores.entries@);
        crate::idmap::lemma_fold_view(&l.restores);
    }
    r
}

impl GraphState {
    /// The records of this graph, for a snapshot.
    pub fn to_records(&self) -> (r: Records)
        requires
            self.wf(),
        ensures
            records_view(r) == self@,
    {
        let (node_entries, edge_entries) = self.entries();
        let ghost g = self@;
        let mut nodes: Vec<NodeRecord> = Vec::new();
        let mut i: usize = 0;
        while i < node_entries.len()
            invariant
                i <= node_entries@.len(),
                forall|k: int| 0 <= k < node_entries@.len() ==> (#[trigger] node_entries@[k]).1.wf(),
                nodes@.len() == i,
                forall|k: int| 0 <= k < i ==> (#[trigger] nodes@[k]).id.spec_id() == node_entries@[k].0 && life_of(nodes@[k].life) == node_entries@[k].1@,
            decreases node_entries@.len() - i,
        {
            let (k, life) = &node_entries[i];
            nodes.push(NodeRecord { id: GraphNodeId::from_id(*k), life: life_record(life) });
            i += 1;
        }
        let mut edges: Vec<EdgeRecord> = Vec::new();
        let mut i: usize = 0;
        while i < edge_entries.len()
            invariant
                i <= edge_entries@.len(),
                forall|k: int| 0 <= k < edge_entries@.len() ==> (#[trigger] edge_entries@[k]).1.wf(),
                edges@.len() == i,
                forall|k: int| 0 <= k < i ==> (#[trigger] edges@[k]).id.spec_id() == edge_entries@[k].0 && edge_of(edges@[k]) == edge_entries@[k].1@,
            decreases edge_entries@.len() - i,
        {
            let (k, e) = &edge_entries[i];
            let mut orders: Vec<(IdLp, i32, GraphPosition)> = Vec::new();
            let mut q: usize = 0;
            while q < e.orders.writes.len()
                invariant
                    e.wf(),
                    q <= e.orders.writes@.len(),
                    orders@.len() == q,
                    forall|x: int| 0 <= x < q ==> (#[trigger] orders@[x]).0 == e.orders.writes@[x].0 && orders@[x].1 == e.orders.writes@[x].1
                        && orders@[x].2@ == e.orders.writes@[x].2@,
                decreases e.orders.writes@.len() - q,
            {
                let w = &e.orders.writes[q];
                orders.push((w.0, w.1, w.2.duplicate()));
                q += 1;
            }
            proof {
                assert forall|a: int, b: int| 0 <= a < b < orders@.len() implies (#[trigger] orders@[a]).0 != (#[trigger] orders@[b]).0 by {
                    assert(e.orders.writes@[a].0 != e.orders.writes@[b].0);
                }
                lemma_writes_fold(orders@);
                assert(reg_view(orders@) =~= e.orders@) by {
                    assert forall|w: IdLp| #[trigger] reg_view(orders@).contains_key(w) <==> e.orders@.contains_key(w) by {
                        if reg_view(orders@).contains_key(w) {
                            let x = choose|x: int| 0 <= x < orders@.len() && #[trigger] orders@[x].0 == w;
                            assert(e.orders.writes@[x].0 == w);
                        }
                        if e.orders@.contains_key(w) {
                            let x = choose|x: int| 0 <= x < e.orders.writes@.len() && #[trigger] e.orders.writes@[x].0 == w;
                            assert(orders@[x].0 == w);
                        }
                    }
                    assert forall|w: IdLp| #[trigger] reg_view(orders@).contains_key(w) implies reg_view(orders@)[w] == e.orders@[w] by {
                        let x = choose|x: int| 0 <= x < orders@.len() && #[trigger] orders@[x].0 == w;
                        assert(e.orders.writes@[x].0 == w);
                        e.orders.lemma_entry(x);
                        let y = choose|y: int| 0 <= y < orders@.len() && #[trigger] orders@[y].0 == w;
                        assert(e.orders.writes@[y].0 == w);
                        if x != y {
                            if x < y {
                                assert(orders@[x].0 != orders@[y].0);
                            } else {
                                assert(orders@[y].0 != orders@[x].0);
                            }
                        }
                    }
                }
            }
            edges.push(EdgeRecord { id: GraphEdgeId::from_id(*k), source: e.source, target: e.target, life: life_record(&e.life), orders });
            i += 1;
        }
        let r = Records { nodes, edges };
        proof {
            lemma_nodes_fold(r.nodes@, node_entries@);
            lemma_edges_fold(r.edges@, edge_entries@);
        }
        r
    }
}

proof fn lemma_nodes_fold(list: Seq<NodeRecord>, entries: Seq<(ID, Life)>)
    requires
        list.len() == entries.len(),
        forall|k: int| 0 <= k < list.len() ==> (#[trigger] list[k]).id.spec_id() == entries[k].0 && life_of(list[k].life) == entries[k].1@,
    ensures
        nodes_map(list) == crate::idmap::fold_pairs(entries).map_values(|l: Life| l@),
    decreases list.len(),
{
    if list.len() > 0 {
        lemma_nodes_fold(list.drop_last(), entries.drop_last());
        assert(nodes_map(list) =~= crate::idmap::fold_pairs(entries).map_values(|l: Life| l@));
    }
}

proof fn lemma_edges_fold(list: Seq<EdgeRecord>, entries: Seq<(ID, Edge)>)
    requires
        list.len() == entries.len(),
        forall|k: int| 0 <= k < list.len() ==> (#[trigger] list[k]).id.spec_id() == entries[k].0 && edge_of(list[k]) == entries[k].1@,
    ensures
        edges_map(list) == crate::idmap::fold_pairs(entries).map_values(|e: Edge| e@),
    decreases list.len(),
{
    if list.len() > 0 {
        lemma_edges_fold(list.drop_last(), entries.drop_last());
        assert(edges_map(list) =~= crate::idmap::fold_pairs(entries).map_values(|e: Edge| e@));
    }
}

} // verus!
