//! Laws of the graph records: what one retraction undoes, and how independent
//! changes commute.
use vstd::prelude::*;
use crate::ids::{ID, IdLp, idlp_lt};
use crate::life::{restored, law_unobserved_delete_wins, LifeView, law_delete_retract, law_restore_retract, law_lifecycle_ops_commute, spec_delete, spec_restore, life_alive, is_active_tag};
use crate::op::{GraphOp, GraphChange, op_valid};
use crate::register::{RegisterView, is_winner, winner_key, winner_value, lemma_winner_key, lemma_winner_exists};
use crate::ids::IdFull;
use crate::state::{GraphView, EdgeView, spec_step, step_ok, write_key, order_of, edge_visible, node_alive, edge_alive, registers_wf, run};

verus! {

/// The same change with its direction reversed.
pub open spec fn retraction(c: GraphChange) -> GraphChange {
    GraphChange { forward: !c.forward, ..c }
}

/// The change's own identity is not yet recorded on the object it targets.
pub open spec fn fresh(g: GraphView, c: GraphChange) -> bool {
    match c.op {
        GraphOp::CreateNode { id } => !g.nodes.contains_key(id.spec_id()),
        GraphOp::CreateEdge { id, .. } => !g.edges.contains_key(id.spec_id()),
        GraphOp::DeleteNode { id } => !g.nodes[id.spec_id()].deletes.contains_key(c.id),
        GraphOp::RestoreNode { id, .. } => !g.nodes[id.spec_id()].restores.contains_key(c.id),
        GraphOp::DeleteEdge { id } => !g.edges[id.spec_id()].life.deletes.contains_key(c.id),
        GraphOp::RestoreEdge { id, .. } => !g.edges[id.spec_id()].life.restores.contains_key(c.id),
        GraphOp::SetEdgeOrder { id, .. } => !g.edges[id.spec_id()].orders.contains_key(write_key(c)),
    }
}

/// Retracting a fresh change right after applying it restores the records exactly:
/// history retreat and undo invert replay.
pub proof fn law_retraction_undoes(g: GraphView, c: GraphChange)
    requires
        c.forward,
        step_ok(g, c),
        fresh(g, c),
        registers_wf(g),
    ensures
        step_ok(spec_step(g, c), retraction(c)),
        spec_step(spec_step(g, c), retraction(c)) == g,
{
    let g1 = spec_step(g, c);
    let r = retraction(c);
    match c.op {
        GraphOp::CreateNode { id } => {
            assert(g.nodes.insert(id.spec_id(), crate::state::new_life(c.lamport)).remove(id.spec_id()) =~= g.nodes);
        },
        GraphOp::CreateEdge { id, .. } => {
            assert(g1.edges.remove(id.spec_id()) =~= g.edges);
        },
        GraphOp::DeleteNode { id } => {
            let n = id.spec_id();
            law_delete_retract(g.nodes[n], c.id, c.lamport);
            assert(spec_step(g1, r).nodes =~= g.nodes);
        },
        GraphOp::RestoreNode { id, deletes } => {
            let n = id.spec_id();
            law_restore_retract(g.nodes[n], c.id, c.lamport, deletes@);
            assert(spec_step(g1, r).nodes =~= g.nodes);
        },
        GraphOp::DeleteEdge { id } => {
            let e = id.spec_id();
            law_delete_retract(g.edges[e].life, c.id, c.lamport);
            assert(spec_step(g1, r).edges =~= g.edges);
        },
        GraphOp::RestoreEdge { id, deletes } => {
            let e = id.spec_id();
            law_restore_retract(g.edges[e].life, c.id, c.lamport, deletes@);
            assert(spec_step(g1, r).edges =~= g.edges);
        },
        GraphOp::SetEdgeOrder { id, position } => {
            let e = id.spec_id();
            let k = write_key(c);
            assert(g.edges[e].orders.insert(k, (c.id.counter, position@)).remove(k) =~= g.edges[e].orders);
            assert(spec_step(g1, r).edges =~= g.edges);
            assert(g1.edges[e].orders.contains_key(k));
            let o = choose|o: IdLp| #[trigger] g.edges[e].orders.contains_key(o);
            assert(g1.edges[e].orders.contains_key(o) && o != k);
        },
    }
}


/// A creation names an object that is not yet recorded.
pub open spec fn creation_new(g: GraphView, c: GraphChange) -> bool {
    match c.op {
        GraphOp::CreateNode { id } => !g.nodes.contains_key(id.spec_id()),
        GraphOp::CreateEdge { id, .. } => !g.edges.contains_key(id.spec_id()),
        _ => true,
    }
}

/// Two forward changes with distinct identities and distinct order writers, each
/// applicable to the same records, reach the same records in either order: replicas
/// that receive concurrent changes in different orders converge.
pub proof fn law_independent_changes_commute(g: GraphView, a: GraphChange, b: GraphChange)
    requires
        a.forward,
        b.forward,
        a.id != b.id,
        write_key(a) != write_key(b),
        op_valid(a.op, a.id),
        op_valid(b.op, b.id),
        step_ok(g, a),
        step_ok(g, b),
        creation_new(g, a),
        creation_new(g, b),
    ensures
        spec_step(spec_step(g, a), b) == spec_step(spec_step(g, b), a),
{
    let ab = spec_step(spec_step(g, a), b);
    let ba = spec_step(spec_step(g, b), a);
    match (a.op, b.op) {
        (GraphOp::DeleteNode { id: x }, GraphOp::DeleteNode { id: y }) => {
            if x == y {
                law_lifecycle_ops_commute(g.nodes[x.spec_id()], a.id, a.lamport, b.id, b.lamport, a.id, 0, Seq::empty(), b.id, 0, Seq::empty());
            }
        },
        (GraphOp::DeleteNode { id: x }, GraphOp::RestoreNode { id: y, deletes }) => {
            if x == y {
                law_lifecycle_ops_commute(g.nodes[x.spec_id()], a.id, a.lamport, b.id, 0, b.id, b.lamport, deletes@, a.id, 0, Seq::empty());
            }
        },
        (GraphOp::RestoreNode { id: x, deletes }, GraphOp::DeleteNode { id: y }) => {
            if x == y {
                law_lifecycle_ops_commute(g.nodes[x.spec_id()], b.id, b.lamport, a.id, 0, a.id, a.lamport, deletes@, b.id, 0, Seq::empty());
            }
        },
        (GraphOp::RestoreNode { id: x, deletes: dx }, GraphOp::RestoreNode { id: y, deletes: dy }) => {
            if x == y {
                law_lifecycle_ops_commute(g.nodes[x.spec_id()], a.id, 0, b.id, 0, a.id, a.lamport, dx@, b.id, b.lamport, dy@);
            }
        },
        (GraphOp::DeleteEdge { id: x }, GraphOp::DeleteEdge { id: y }) => {
            if x == y {
                law_lifecycle_ops_commute(g.edges[x.spec_id()].life, a.id, a.lamport, b.id, b.lamport, a.id, 0, Seq::empty(), b.id, 0, Seq::empty());
            }
        },
        (GraphOp::DeleteEdge { id: x }, GraphOp::RestoreEdge { id: y, deletes }) => {
            if x == y {
                law_lifecycle_ops_commute(g.edges[x.spec_id()].life, a.id, a.lamport, b.id, 0, b.id, b.lamport, deletes@, a.id, 0, Seq::empty());
            }
        },
        (GraphOp::RestoreEdge { id: x, deletes }, GraphOp::DeleteEdge { id: y }) => {
            if x == y {
                law_lifecycle_ops_commute(g.edges[x.spec_id()].life, b.id, b.lamport, a.id, 0, a.id, a.lamport, deletes@, b.id, 0, Seq::empty());
            }
        },
        (GraphOp::RestoreEdge { id: x, deletes: dx }, GraphOp::RestoreEdge { id: y, deletes: dy }) => {
            if x == y {
                law_lifecycle_ops_commute(g.edges[x.spec_id()].life, a.id, 0, b.id, 0, a.id, a.lamport, dx@, b.id, b.lamport, dy@);
            }
        },
        (GraphOp::SetEdgeOrder { id: x, position: px }, GraphOp::SetEdgeOrder { id: y, position: py }) => {
            if x == y {
                let o = g.edges[x.spec_id()].orders;
                assert(o.insert(write_key(a), (a.id.counter, px@)).insert(write_key(b), (b.id.counter, py@))
                    =~= o.insert(write_key(b), (b.id.counter, py@)).insert(write_key(a), (a.id.counter, px@)));
            }
        },
        _ => {},
    }
    assert(ab.nodes =~= ba.nodes);
    assert(ab.edges =~= ba.edges);
}


/// Last writer wins: a new order write becomes the edge's order exactly when its
/// `(lamport, peer)` exceeds the current winner's; otherwise the order is unchanged.
pub proof fn law_order_last_writer_wins(g: GraphView, c: GraphChange)
    requires
        c.forward,
        c.op is SetEdgeOrder,
        step_ok(g, c),
        fresh(g, c),
        registers_wf(g),
    ensures
        ({
            let e = c.op->SetEdgeOrder_id.spec_id();
            let old_winner = winner_key(g.edges[e].orders);
            order_of(spec_step(g, c), e) == if idlp_lt(old_winner, write_key(c)) {
                Some((c.op->SetEdgeOrder_position@, IdFull { peer: c.id.peer, counter: c.id.counter, lamport: c.lamport }))
            } else {
                order_of(g, e)
            }
        }),
{
    let e = c.op->SetEdgeOrder_id.spec_id();
    let m = g.edges[e].orders;
    let k = write_key(c);
    let m1 = m.insert(k, (c.id.counter, c.op->SetEdgeOrder_position@));
    let g1 = spec_step(g, c);
    assert(g1.edges[e].orders == m1);
    let o = choose|o: IdLp| #[trigger] m.contains_key(o);
    assert(m.dom().contains(o));
    lemma_winner_exists(m);
    let w = winner_key(m);
    if idlp_lt(w, k) {
        assert forall|x: IdLp| #[trigger] m1.contains_key(x) && x != k implies idlp_lt(x, k) by {
            if x != w {
                assert(idlp_lt(x, w));
            }
        }
        lemma_winner_key(m1, k);
    } else {
        assert(w != k);
        assert forall|x: IdLp| #[trigger] m1.contains_key(x) && x != w implies idlp_lt(x, w) by {
            if x != k {
                assert(m.contains_key(x));
            }
        }
        lemma_winner_key(m1, w);
    }
}


/// A visible edge has alive endpoints: deleting a node hides every edge incident to it.
pub proof fn law_visible_edge_has_alive_endpoints(g: GraphView, e: ID)
    requires
        edge_visible(g, e),
    ensures
        node_alive(g, g.edges[e].source),
        node_alive(g, g.edges[e].target),
{
}

/// Remove wins: a node delete that no restore names keeps the node dead, even when a
/// concurrent restore (naming other deletes) is applied after it.
pub proof fn law_unobserved_node_delete_wins(g: GraphView, del: GraphChange, res: GraphChange)
    requires
        del.forward,
        res.forward,
        del.op is DeleteNode,
        res.op is RestoreNode,
        res.op->RestoreNode_id == del.op->DeleteNode_id,
        step_ok(g, del),
        !restored(g.nodes[del.op->DeleteNode_id.spec_id()].restores, del.id),
        !res.op->RestoreNode_deletes@.contains(del.id),
    ensures
        !node_alive(spec_step(g, del), del.op->DeleteNode_id.spec_id()),
        !node_alive(spec_step(spec_step(g, del), res), del.op->DeleteNode_id.spec_id()),
{
    let n = del.op->DeleteNode_id.spec_id();
    law_unobserved_delete_wins(g.nodes[n], del.id, del.lamport, res.id, res.lamport, res.op->RestoreNode_deletes@);
}

/// Remove wins for edges: an edge delete that no restore names keeps the edge dead
/// and invisible, even when a concurrent restore (naming other deletes) is applied
/// after it.
pub proof fn law_unobserved_edge_delete_wins(g: GraphView, del: GraphChange, res: GraphChange)
    requires
        del.forward,
        res.forward,
        del.op is DeleteEdge,
        res.op is RestoreEdge,
        res.op->RestoreEdge_id == del.op->DeleteEdge_id,
        step_ok(g, del),
        !restored(g.edges[del.op->DeleteEdge_id.spec_id()].life.restores, del.id),
        !res.op->RestoreEdge_deletes@.contains(del.id),
    ensures
        !edge_alive(spec_step(g, del), del.op->DeleteEdge_id.spec_id()),
        !edge_visible(spec_step(spec_step(g, del), res), del.op->DeleteEdge_id.spec_id()),
{
    let e = del.op->DeleteEdge_id.spec_id();
    law_unobserved_delete_wins(g.edges[e].life, del.id, del.lamport, res.id, res.lamport, res.op->RestoreEdge_deletes@);
}

/// Node `n` is recorded and carries the delete tag `t`, which no restore names.
pub open spec fn node_tag_active(g: GraphView, n: ID, t: ID) -> bool {
    g.nodes.contains_key(n) && g.nodes[n].deletes.contains_key(t) && !restored(g.nodes[n].restores, t)
}

/// An active delete tag of node `n` stays active through forward changes none of
/// which is a restore of `n` naming it.
proof fn lemma_node_tag_stays(g: GraphView, n: ID, t: ID, cs: Seq<GraphChange>)
    requires
        node_tag_active(g, n, t),
        forall|i: int| 0 <= i < cs.len() ==> (#[trigger] cs[i]).forward,
        forall|i: int| 0 <= i < cs.len() && (#[trigger] cs[i]).op is RestoreNode && cs[i].op->RestoreNode_id.spec_id() == n
            ==> !cs[i].op->RestoreNode_deletes@.contains(t),
    ensures
        node_tag_active(run(g, cs), n, t),
    decreases cs.len(),
{
    if cs.len() > 0 {
        let d = cs.drop_last();
        let c = cs.last();
        assert(c == cs[cs.len() - 1]);
        assert forall|i: int| 0 <= i < d.len() implies (#[trigger] d[i]).forward by {
            assert(d[i] == cs[i]);
        }
        assert forall|i: int| 0 <= i < d.len() && (#[trigger] d[i]).op is RestoreNode && d[i].op->RestoreNode_id.spec_id() == n
            implies !d[i].op->RestoreNode_deletes@.contains(t) by {
            assert(d[i] == cs[i]);
        }
        lemma_node_tag_stays(g, n, t, d);
        let g0 = run(g, d);
        let g1 = spec_step(g0, c);
        assert(g1 == run(g, cs));
        match c.op {
            GraphOp::RestoreNode { id, deletes } => {
                if id.spec_id() == n {
                    assert(!deletes@.contains(t));
                    assert forall|r: ID| #[trigger] g1.nodes[n].restores.contains_key(r) implies !g1.nodes[n].restores[r].1.contains(t) by {
                        if r != c.id {
                            assert(g0.nodes[n].restores.contains_key(r));
                        }
                    }
                }
            },
            _ => {},
        }
    }
}

/// Remove wins over a history: once a node carries a delete that no restore names,
/// it stays dead through any later forward changes whose restores of it do not name
/// that delete.
pub proof fn law_unobserved_node_delete_wins_over_history(g: GraphView, del: GraphChange, cs: Seq<GraphChange>)
    requires
        del.forward,
        del.op is DeleteNode,
        step_ok(g, del),
        !restored(g.nodes[del.op->DeleteNode_id.spec_id()].restores, del.id),
        forall|i: int| 0 <= i < cs.len() ==> (#[trigger] cs[i]).forward,
        forall|i: int| 0 <= i < cs.len() && (#[trigger] cs[i]).op is RestoreNode
            && cs[i].op->RestoreNode_id.spec_id() == del.op->DeleteNode_id.spec_id()
            ==> !cs[i].op->RestoreNode_deletes@.contains(del.id),
    ensures
        !node_alive(run(spec_step(g, del), cs), del.op->DeleteNode_id.spec_id()),
{
    let n = del.op->DeleteNode_id.spec_id();
    let g1 = spec_step(g, del);
    assert(node_tag_active(g1, n, del.id));
    lemma_node_tag_stays(g1, n, del.id, cs);
}

/// Edge `e` is recorded and carries the delete tag `t`, which no restore names.
pub open spec fn edge_tag_active(g: GraphView, e: ID, t: ID) -> bool {
    g.edges.contains_key(e) && g.edges[e].life.deletes.contains_key(t) && !restored(g.edges[e].life.restores, t)
}

/// An active delete tag of edge `e` stays active through forward changes none of
/// which creates `e` again or restores it naming the tag.
proof fn lemma_edge_tag_stays(g: GraphView, e: ID, t: ID, cs: Seq<GraphChange>)
    requires
        edge_tag_active(g, e, t),
        forall|i: int| 0 <= i < cs.len() ==> (#[trigger] cs[i]).forward,
        forall|i: int| 0 <= i < cs.len() && (#[trigger] cs[i]).op is CreateEdge ==> cs[i].op->CreateEdge_id.spec_id() != e,
        forall|i: int| 0 <= i < cs.len() && (#[trigger] cs[i]).op is RestoreEdge && cs[i].op->RestoreEdge_id.spec_id() == e
            ==> !cs[i].op->RestoreEdge_deletes@.contains(t),
    ensures
        edge_tag_active(run(g, cs), e, t),
    decreases cs.len(),
{
    if cs.len() > 0 {
        let d = cs.drop_last();
        let c = cs.last();
        assert(c == cs[cs.len() - 1]);
        assert forall|i: int| 0 <= i < d.len() implies (#[trigger] d[i]).forward by {
            assert(d[i] == cs[i]);
        }
        assert forall|i: int| 0 <= i < d.len() && (#[trigger] d[i]).op is CreateEdge implies d[i].op->CreateEdge_id.spec_id() != e by {
            assert(d[i] == cs[i]);
        }
        assert forall|i: int| 0 <= i < d.len() && (#[trigger] d[i]).op is RestoreEdge && d[i].op->RestoreEdge_id.spec_id() == e
            implies !d[i].op->RestoreEdge_deletes@.contains(t) by {
            assert(d[i] == cs[i]);
        }
        lemma_edge_tag_stays(g, e, t, d);
        let g0 = run(g, d);
        let g1 = spec_step(g0, c);
        assert(g1 == run(g, cs));
        match c.op {
            GraphOp::RestoreEdge { id, deletes } => {
                if id.spec_id() == e {
                    assert(!deletes@.contains(t));
                    assert forall|r: ID| #[trigger] g1.edges[e].life.restores.contains_key(r) implies !g1.edges[e].life.restores[r].1.contains(t) by {
                        if r != c.id {
                            assert(g0.edges[e].life.restores.contains_key(r));
                        }
                    }
                }
            },
            _ => {},
        }
    }
}

/// Remove wins over a history for edges: once an edge carries a delete that no
/// restore names, it stays dead and invisible through any later forward changes
/// that do not create it again and whose restores of it do not name that delete.
pub proof fn law_unobserved_edge_delete_wins_over_history(g: GraphView, del: GraphChange, cs: Seq<GraphChange>)
    requires
        del.forward,
        del.op is DeleteEdge,
        step_ok(g, del),
        !restored(g.edges[del.op->DeleteEdge_id.spec_id()].life.restores, del.id),
        forall|i: int| 0 <= i < cs.len() ==> (#[trigger] cs[i]).forward,
        forall|i: int| 0 <= i < cs.len() && (#[trigger] cs[i]).op is CreateEdge
            ==> cs[i].op->CreateEdge_id.spec_id() != del.op->DeleteEdge_id.spec_id(),
        forall|i: int| 0 <= i < cs.len() && (#[trigger] cs[i]).op is RestoreEdge
            && cs[i].op->RestoreEdge_id.spec_id() == del.op->DeleteEdge_id.spec_id()
            ==> !cs[i].op->RestoreEdge_deletes@.contains(del.id),
    ensures
        !edge_alive(run(spec_step(g, del), cs), del.op->DeleteEdge_id.spec_id()),
        !edge_visible(run(spec_step(g, del), cs), del.op->DeleteEdge_id.spec_id()),
{
    let e = del.op->DeleteEdge_id.spec_id();
    let g1 = spec_step(g, del);
    assert(edge_tag_active(g1, e, del.id));
    lemma_edge_tag_stays(g1, e, del.id, cs);
}

} // verus!
