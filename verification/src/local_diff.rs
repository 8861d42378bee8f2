//! Rebase a history diff into local edits: the touched lifecycles are replayed on
//! copies, and the net change becomes fresh local operations rather than replays
//! of the diff's own operation identities.
use vstd::prelude::*;
use crate::ids::{ID, GraphNodeId, GraphEdgeId, id_lt, id_less};
use crate::idmap::IdMap;
use crate::life::{Life, LifeView, life_alive, is_active_tag};
use crate::op::{GraphOp, GraphChange, GraphDiff, GraphError, op_valid, op_object, op_is_node};
use crate::position::{GraphPosition, lex_lt, lemma_lex_total, lemma_lex_transitive};
use crate::state::{GraphState, GraphView, delete_op, edge_ids};
use crate::copy_order::{CopyOrderEdge, Destination, assign_mixed_groups, sorted_positions, pos};

verus! {

/// The net effect of a diff on one object: its lifecycle before and after, and
/// its creation when the diff recreates it.
pub struct Edit {
    pub before: Option<Life>,
    pub after: Option<Life>,
    pub create: Option<GraphOp>,
}

impl Edit {
    pub open spec fn wf(&self) -> bool {
        &&& self.before matches Some(l) ==> l.wf()
        &&& self.after matches Some(l) ==> l.wf()
    }
}

/// The edits of a diff: nodes and edges by the diff's own identities.
pub struct Edits {
    pub nodes: IdMap<Edit>,
    pub edges: IdMap<Edit>,
}

impl Edits {
    pub open spec fn wf(&self) -> bool {
        &&& self.nodes.wf()
        &&& self.edges.wf()
        &&& forall|k: ID| #[trigger] self.nodes@.contains_key(k) ==> self.nodes@[k].wf()
        &&& forall|k: ID| #[trigger] self.edges@.contains_key(k) ==> self.edges@[k].wf()
    }
}

/// An identity as the destination names it: mapped where the table says so.
pub open spec fn remapped(remap: Map<ID, ID>, id: ID) -> ID {
    if remap.contains_key(id) { remap[id] } else { id }
}

pub fn remap_id(remap: &IdMap<ID>, id: ID) -> (r: ID)
    requires
        remap.wf(),
    ensures
        r == remapped(remap@, id),
{
    match remap.get(id) {
        Some(x) => *x,
        None => id,
    }
}

/// `op` creates again what the diff's creation `orig` created: same kind,
/// object and endpoints (the key may differ).
pub open spec fn recreates(orig: GraphOp, op: GraphOp) -> bool {
    match (orig, op) {
        (GraphOp::CreateNode { id: a }, GraphOp::CreateNode { id: b }) => a == b,
        (
            GraphOp::CreateEdge { id: a, source: s, target: t, .. },
            GraphOp::CreateEdge { id: b, source: s2, target: t2, .. },
        ) => a == b && s == s2 && t == t2,
        _ => false,
    }
}

/// `op` replays a forward creation of the diff.
pub open spec fn created_by(ops: Seq<GraphChange>, op: GraphOp) -> bool {
    exists|j: int| 0 <= j < ops.len() && (#[trigger] ops[j]).forward && recreates(ops[j].op, op)
}

/// Some operation of the diff is about the lifecycle of `x`, a node or an edge.
pub open spec fn life_touched(ops: Seq<GraphChange>, x: ID, is_node: bool) -> bool {
    exists|j: int|
        0 <= j < ops.len() && op_object((#[trigger] ops[j]).op) == x && op_is_node(ops[j].op) == is_node
            && !(ops[j].op is SetEdgeOrder)
}

/// The lifecycle that this graph holds for the object the diff calls `x`.
pub open spec fn current_life(g: GraphView, remap: Map<ID, ID>, x: ID, is_node: bool) -> Option<LifeView> {
    let t = remapped(remap, x);
    if is_node {
        if g.nodes.contains_key(t) {
            Some(g.nodes[t])
        } else {
            None
        }
    } else {
        if g.edges.contains_key(t) {
            Some(g.edges[t].life)
        } else {
            None
        }
    }
}

/// The edit of `x` is grounded: the diff is about `x`, its starting lifecycle is
/// this graph's, and a planned creation replays one of the diff's.
pub open spec fn edit_ok(g: GraphView, remap: Map<ID, ID>, ops: Seq<GraphChange>, x: ID, e: Edit, is_node: bool) -> bool {
    &&& life_touched(ops, x, is_node)
    &&& e.before matches Some(l) ==> current_life(g, remap, x, is_node) == Some(l@)
    &&& e.create matches Some(op) ==> created_by(ops, op) && op_object(op) == x && (op is CreateNode <==> is_node)
    &&& e.create matches Some(op) ==> key_from(ops, op)
}

/// An edge creation carries the key of some forward edge creation of the diff.
pub open spec fn key_from(ops: Seq<GraphChange>, op: GraphOp) -> bool {
    op matches GraphOp::CreateEdge { position, .. } ==> exists|j: int|
        0 <= j < ops.len() && (#[trigger] ops[j]).forward && (ops[j].op matches GraphOp::CreateEdge { position: p2, .. } && p2@ == position@)
}

pub open spec fn edits_ok(g: GraphView, remap: Map<ID, ID>, ops: Seq<GraphChange>, edits: Edits) -> bool {
    &&& forall|x: ID| #[trigger] edits.nodes@.contains_key(x) ==> edit_ok(g, remap, ops, x, edits.nodes@[x], true)
    &&& forall|x: ID| #[trigger] edits.edges@.contains_key(x) ==> edit_ok(g, remap, ops, x, edits.edges@[x], false)
}

/// Every tag is an active delete of the lifecycle.
pub open spec fn restores_active(l: Option<LifeView>, tags: Seq<ID>) -> bool {
    l matches Some(v) && forall|i: int| 0 <= i < tags.len() ==> is_active_tag(v, #[trigger] tags[i])
}

/// An operation of a rebased plan is grounded in the diff and in this graph: a
/// creation replays a forward creation of the diff; a delete or restore is about
/// an object whose lifecycle the diff changes, and a restore lifts only deletes
/// active in this graph; an order write is for an edge of the diff's order
/// deltas or of this graph.
pub open spec fn planned_from(g: GraphView, remap: Map<ID, ID>, diff: GraphDiff, op: GraphOp) -> bool {
    let ops = diff.ops@;
    match op {
        GraphOp::CreateNode { .. } => created_by(ops, op),
        GraphOp::CreateEdge { .. } => created_by(ops, op),
        GraphOp::DeleteNode { id } => life_touched(ops, id.spec_id(), true),
        GraphOp::DeleteEdge { id } => life_touched(ops, id.spec_id(), false),
        GraphOp::RestoreNode { id, deletes } => life_touched(ops, id.spec_id(), true) && restores_active(
            current_life(g, remap, id.spec_id(), true),
            deletes@,
        ),
        GraphOp::RestoreEdge { id, deletes } => life_touched(ops, id.spec_id(), false) && restores_active(
            current_life(g, remap, id.spec_id(), false),
            deletes@,
        ),
        GraphOp::SetEdgeOrder { id, .. } => diff.orders@.contains_key(id.spec_id()) || g.edges.contains_key(
            id.spec_id(),
        ),
    }
}

/// `b` is `a` with, for an edge creation, possibly another key.
pub open spec fn same_creation(a: GraphOp, b: GraphOp) -> bool {
    match (a, b) {
        (
            GraphOp::CreateEdge { id: x, source: s, target: t, .. },
            GraphOp::CreateEdge { id: y, source: s2, target: t2, .. },
        ) => x == y && s == s2 && t == t2,
        _ => a == b,
    }
}

/// The end of the chain of remaps from `x`, following at most `fuel` steps.
pub open spec fn follow(m: Map<ID, ID>, x: ID, fuel: nat) -> ID
    decreases fuel,
{
    if fuel == 0 || !m.contains_key(x) {
        x
    } else {
        follow(m, m[x], (fuel - 1) as nat)
    }
}

/// The identity a recreated object now has: the remap table is followed from
/// `x` until an identity it does not list (a table without cycles is followed
/// to its end within as many steps as it has entries).
pub fn follow_remap(remap: &IdMap<ID>, x: ID) -> (r: ID)
    requires
        remap.wf(),
    ensures
        r == follow(remap@, x, remap.entries@.len() as nat),
{
    let n = remap.len();
    let mut cur = x;
    let mut k: usize = 0;
    while k < n
        invariant
            remap.wf(),
            n == remap.entries@.len(),
            k <= n,
            follow(remap@, x, n as nat) == follow(remap@, cur, (n - k) as nat),
        decreases n - k,
    {
        match remap.get(cur) {
            Some(next) => {
                cur = *next;
            },
            None => {
                return cur;
            },
        }
        k += 1;
    }
    cur
}

/// The remap table `m` with every entry followed `n` steps down its chain.
pub open spec fn resolved_map(m: Map<ID, ID>, n: nat) -> Map<ID, ID> {
    Map::new(|x: ID| m.contains_key(x), |x: ID| follow(m, x, n))
}

/// The remap table with every entry followed to the end of its chain.
pub fn resolve_remap(remap: &IdMap<ID>) -> (r: IdMap<ID>)
    requires
        remap.wf(),
    ensures
        r.wf(),
        forall|x: ID| #[trigger] remapped(r@, x) == follow(remap@, x, remap.entries@.len() as nat),
        r@ == resolved_map(remap@, remap.entries@.len() as nat),
{
    let mut r: IdMap<ID> = IdMap::new();
    let mut i: usize = 0;
    proof {
        remap.lemma_view();
    }
    while i < remap.len()
        invariant
            remap.wf(),
            r.wf(),
            i <= remap.entries@.len(),
            forall|x: ID| #[trigger] r@.contains_key(x) <==> exists|q: int| 0 <= q < i && remap.entries@[q].0 == x,
            forall|x: ID| #[trigger] r@.contains_key(x) ==> r@[x] == follow(remap@, x, remap.entries@.len() as nat),
        decreases remap.entries@.len() - i,
    {
        let x = remap.key_at(i);
        proof {
            remap.lemma_at(i as int);
        }
        let y = follow_remap(remap, x);
        r.insert(x, y);
        proof {
            assert forall|z: ID| #[trigger] r@.contains_key(z) <==> exists|q: int| 0 <= q < i + 1 && remap.entries@[q].0 == z by {
                if z == x {
                    assert(remap.entries@[i as int].0 == z);
                }
            }
        }
        i += 1;
    }
    proof {
        assert forall|x: ID| #[trigger] remapped(r@, x) == follow(remap@, x, remap.entries@.len() as nat) by {
            if !r@.contains_key(x) && remap@.contains_key(x) {
                let q = choose|q: int| 0 <= q < remap.entries@.len() && remap.entries@[q].0 == x;
            }
            if !remap@.contains_key(x) {
                if remap.entries@.len() > 0 {
                    assert(follow(remap@, x, remap.entries@.len() as nat) == x);
                }
                if r@.contains_key(x) {
                    let q = choose|q: int| 0 <= q < i && remap.entries@[q].0 == x;
                    assert(remap@.contains_key(remap.entries@[q].0));
                }
            }
        }
        assert(r@ =~= resolved_map(remap@, remap.entries@.len() as nat)) by {
            assert forall|x: ID| #[trigger] r@.contains_key(x) <==> remap@.contains_key(x) by {
                if remap@.contains_key(x) {
                    let q = choose|q: int| 0 <= q < remap.entries@.len() && remap.entries@[q].0 == x;
                }
                if r@.contains_key(x) {
                    let q = choose|q: int| 0 <= q < i && remap.entries@[q].0 == x;
                    assert(remap@.contains_key(remap.entries@[q].0));
                }
            }
        }
    }
    r
}

/// The mathematical content of an edit: lifecycle before and after, and
/// whether the diff recreates the object.
pub type EditView = (Option<LifeView>, Option<LifeView>, bool);

pub open spec fn life_opt(l: Option<Life>) -> Option<LifeView> {
    match l {
        Some(x) => Some(x@),
        None => None,
    }
}

pub open spec fn edit_view(e: Edit) -> EditView {
    (life_opt(e.before), life_opt(e.after), e.create is Some)
}

/// An edit starts from this graph's record of the object.
pub open spec fn edit_start(g: GraphView, remap: Map<ID, ID>, x: ID, is_node: bool) -> EditView {
    (current_life(g, remap, x, is_node), current_life(g, remap, x, is_node), false)
}

/// One change replayed on an edit; `None` when it cannot be (a lifecycle
/// change of an absent object, or a restore naming an unknown delete).
pub open spec fn edit_step(e: EditView, c: GraphChange) -> Option<EditView> {
    match c.op {
        GraphOp::CreateNode { .. } => if c.forward {
            Some((None, Some(crate::state::new_life(0)), true))
        } else {
            Some((e.0, None, e.2))
        },
        GraphOp::CreateEdge { .. } => if c.forward {
            Some((None, Some(crate::state::new_life(0)), true))
        } else {
            Some((e.0, None, e.2))
        },
        GraphOp::DeleteNode { .. } => match e.1 {
            Some(l) => Some((e.0, Some(crate::life::spec_delete(l, c.id, c.lamport, c.forward)), e.2)),
            None => None,
        },
        GraphOp::DeleteEdge { .. } => match e.1 {
            Some(l) => Some((e.0, Some(crate::life::spec_delete(l, c.id, c.lamport, c.forward)), e.2)),
            None => None,
        },
        GraphOp::RestoreNode { deletes, .. } => match e.1 {
            Some(l) => if c.forward && !(forall|k: int| 0 <= k < deletes@.len() ==> l.deletes.contains_key(#[trigger] deletes@[k])) {
                None
            } else {
                Some((e.0, Some(crate::life::spec_restore(l, c.id, c.lamport, deletes@, c.forward)), e.2))
            },
            None => None,
        },
        GraphOp::RestoreEdge { deletes, .. } => match e.1 {
            Some(l) => if c.forward && !(forall|k: int| 0 <= k < deletes@.len() ==> l.deletes.contains_key(#[trigger] deletes@[k])) {
                None
            } else {
                Some((e.0, Some(crate::life::spec_restore(l, c.id, c.lamport, deletes@, c.forward)), e.2))
            },
            None => None,
        },
        GraphOp::SetEdgeOrder { .. } => Some(e),
    }
}

/// Change `c` replays on the lifecycle of `x` (a node or an edge).
pub open spec fn about(c: GraphChange, x: ID, is_node: bool) -> bool {
    op_object(c.op) == x && op_is_node(c.op) == is_node && !(c.op is SetEdgeOrder)
}

/// The edit of `x` after replaying the first `i` changes of the diff.
pub open spec fn edit_fold(g: GraphView, remap: Map<ID, ID>, ops: Seq<GraphChange>, i: int, x: ID, is_node: bool) -> Option<EditView>
    decreases i,
{
    if i <= 0 {
        Some(edit_start(g, remap, x, is_node))
    } else {
        match edit_fold(g, remap, ops, i - 1, x, is_node) {
            None => None,
            Some(e) => if about(ops[i - 1], x, is_node) {
                edit_step(e, ops[i - 1])
            } else {
                Some(e)
            },
        }
    }
}

/// Once the replay of `x` fails, it stays failed.
proof fn lemma_fold_fails(g: GraphView, remap: Map<ID, ID>, ops: Seq<GraphChange>, i: int, j: int, x: ID, is_node: bool)
    requires
        0 <= i <= j,
        edit_fold(g, remap, ops, i, x, is_node) is None,
    ensures
        edit_fold(g, remap, ops, j, x, is_node) is None,
    decreases j - i,
{
    if i < j {
        lemma_fold_fails(g, remap, ops, i + 1, j, x, is_node);
    }
}

/// The diff can be planned on `g` under `remap`: its operations are valid, every
/// object's edits replay without a gap, a created edge's endpoints exist here,
/// and a key delta names an edge that exists here with the same source.
pub open spec fn diff_applies(g: GraphView, remap: Map<ID, ID>, diff: GraphDiff) -> bool {
    let ops = diff.ops@;
    &&& forall|i: int| 0 <= i < ops.len() ==> op_valid((#[trigger] ops[i]).op, ops[i].id)
    &&& forall|x: ID, is_node: bool|
        #[trigger] edit_fold(g, remap, ops, ops.len() as int, x, is_node) is Some && !edit_broken(
            edit_fold(g, remap, ops, ops.len() as int, x, is_node)->Some_0,
        )
    &&& forall|i: int|
        0 <= i < ops.len() && (#[trigger] ops[i]).forward ==> (ops[i].op matches GraphOp::CreateEdge { source, target, .. }
            ==> g.nodes.contains_key(remapped(remap, source.spec_id())) && g.nodes.contains_key(remapped(remap, target.spec_id())))
    &&& forall|k: ID|
        #[trigger] diff.orders@.contains_key(k) && diff.orders@[k].after is Some ==> g.edges.contains_key(remapped(remap, k))
            && g.edges[remapped(remap, k)].source == remapped(remap, diff.orders@[k].source.spec_id())
}

/// Without jitter, every key the plan may have to place between leaves room for
/// one byte per operation of the diff and per recorded edge.
pub open spec fn plan_room(g: GraphView, jitter: u8, diff: GraphDiff) -> bool {
    let ops = diff.ops@;
    let l = ops.len() + g.edges.dom().len();
    &&& jitter == 0
    &&& forall|i: int| 0 <= i < ops.len() && (#[trigger] ops[i]).forward ==> (ops[i].op matches GraphOp::CreateEdge { position, .. }
        ==> position@.len() + l <= crate::position::MAX_GRAPH_POSITION_BYTES)
    &&& forall|k: ID| #[trigger] diff.orders@.contains_key(k) && diff.orders@[k].after is Some ==> diff.orders@[k].after->0.position@.len() + l
        <= crate::position::MAX_GRAPH_POSITION_BYTES
    &&& forall|e: ID| #[trigger] g.edges.contains_key(e) ==> crate::register::winner_value(g.edges[e].orders).0.len() + l <= crate::position::MAX_GRAPH_POSITION_BYTES
}

/// The diff creates no edge, so no copied edge needs a key.
pub open spec fn creates_no_edge(ops: Seq<GraphChange>) -> bool {
    forall|i: int| 0 <= i < ops.len() && (#[trigger] ops[i]).forward ==> !(ops[i].op is CreateEdge)
}

/// The key delta of diff edge `k` calls for an order write here: it moves the key,
/// the diff neither creates nor removes the edge, the edge it names here holds
/// another key, and no other delta names the same edge here.
pub open spec fn order_write_due(g: GraphView, remap: Map<ID, ID>, diff: GraphDiff, k: ID) -> bool {
    let ops = diff.ops@;
    let d = diff.orders@[k];
    let e = edit_fold(g, remap, ops, ops.len() as int, k, false)->Some_0;
    let x = remapped(remap, k);
    &&& diff.orders@.contains_key(k)
    &&& d.after is Some
    &&& !(d.before matches Some(b) && b.position@ == d.after->0.position@)
    &&& !(e.2 || e.1 is None)
    &&& g.edges.contains_key(x)
    &&& crate::register::winner_value(g.edges[x].orders).0 != d.after->0.position@
    &&& forall|k2: ID| #[trigger] diff.orders@.contains_key(k2) && k2 != k ==> remapped(remap, k2) != x
}

/// `op` restores `x` (a node or an edge).
pub open spec fn restores_obj(op: GraphOp, x: ID, is_node: bool) -> bool {
    if is_node {
        op matches GraphOp::RestoreNode { id, .. } && id.spec_id() == x
    } else {
        op matches GraphOp::RestoreEdge { id, .. } && id.spec_id() == x
    }
}

/// Delete `t` was active before the edit and is not after it.
pub open spec fn lifted(e: EditView, t: ID) -> bool {
    e.1 matches Some(a) && e.0 matches Some(b) && !e.2 && is_active_tag(b, t) && !is_active_tag(a, t)
}

/// The edit leaves a delete active that was not active before it.
pub open spec fn gains_delete(e: EditView) -> bool {
    e.1 matches Some(a) && e.0 matches Some(b) && exists|t: ID| is_active_tag(a, t) && !is_active_tag(b, t)
}

/// The net edit needs one fresh delete: a live object whose creation is
/// retracted, a recreated object that ends dead, or a gained delete.
pub open spec fn wants_delete(e: EditView) -> bool {
    match e.1 {
        None => e.0 matches Some(b) && life_alive(b),
        Some(a) => if e.2 {
            !life_alive(a)
        } else {
            gains_delete(e)
        },
    }
}

/// The net edit needs a restore: some delete is lifted.
pub open spec fn wants_restore(e: EditView) -> bool {
    exists|t: ID| lifted(e, t)
}

/// A restore names exactly the lifted deletes.
pub open spec fn restore_lifts(op: GraphOp, e: EditView) -> bool {
    match op {
        GraphOp::RestoreNode { deletes, .. } => forall|t: ID| deletes@.contains(t) <==> lifted(e, t),
        GraphOp::RestoreEdge { deletes, .. } => forall|t: ID| deletes@.contains(t) <==> lifted(e, t),
        _ => true,
    }
}

/// An edit whose object is neither recreated nor recorded here, yet has a lifecycle after it.
pub open spec fn edit_broken(e: EditView) -> bool {
    e.1 is Some && !e.2 && e.0 is None
}

/// Two deletes, or two restores, of one object.
pub open spec fn lifecycle_twins(a: GraphOp, b: GraphOp) -> bool {
    match (a, b) {
        (GraphOp::DeleteNode { id: x }, GraphOp::DeleteNode { id: y }) => x == y,
        (GraphOp::DeleteEdge { id: x }, GraphOp::DeleteEdge { id: y }) => x == y,
        (GraphOp::RestoreNode { id: x, .. }, GraphOp::RestoreNode { id: y, .. }) => x == y,
        (GraphOp::RestoreEdge { id: x, .. }, GraphOp::RestoreEdge { id: y, .. }) => x == y,
        _ => false,
    }
}

/// From `from` on, no object gets two deletes or two restores.
pub open spec fn no_twins(s: Seq<GraphOp>, from: int) -> bool {
    forall|q1: int, q2: int| from <= q1 < q2 < s.len() ==> !lifecycle_twins(#[trigger] s[q1], #[trigger] s[q2])
}

/// A restore names its tags in ascending order.
pub open spec fn restore_sorted(op: GraphOp) -> bool {
    match op {
        GraphOp::RestoreNode { deletes, .. } => crate::idmap::sorted_ids(deletes@),
        GraphOp::RestoreEdge { deletes, .. } => crate::idmap::sorted_ids(deletes@),
        _ => true,
    }
}

/// Append the net lifecycle operations of one edit: a restore of the lifted
/// deletes, and one fresh delete where the edit needs one.
fn push_net_ops(result: &mut Vec<GraphOp>, is_node: bool, object: ID, edit: &Edit) -> (r: Result<(), GraphError>)
    requires
        edit.wf(),
    ensures
        r is Err <==> edit_broken(edit_view(*edit)),
        r is Err ==> final(result)@ == old(result)@,
        final(result)@.len() >= old(result)@.len(),
        forall|q: int| 0 <= q < old(result)@.len() ==> final(result)@[q] == old(result)@[q],
        forall|q: int|
            old(result)@.len() <= q < final(result)@.len() ==> (final(result)@[q] == delete_op(object, is_node)
                || restores_obj(final(result)@[q], object, is_node)) && restore_lifts(final(result)@[q], edit_view(*edit)),
        r is Ok ==> ((exists|q: int| old(result)@.len() <= q < final(result)@.len() && final(result)@[q] == delete_op(object, is_node))
            <==> wants_delete(edit_view(*edit))),
        r is Ok ==> ((exists|q: int| old(result)@.len() <= q < final(result)@.len() && restores_obj(final(result)@[q], object, is_node))
            <==> wants_restore(edit_view(*edit))),
        no_twins(final(result)@, old(result)@.len() as int),
        forall|q: int| old(result)@.len() <= q < final(result)@.len() ==> restore_sorted(#[trigger] final(result)@[q]),
{
    let ghost r0 = result@;
    let ghost e = edit_view(*edit);
    match &edit.after {
        None => {
            if alive_opt(&edit.before) {
                result.push(delete_of(is_node, object));
                proof {
                    assert(result@[r0.len() as int] == delete_op(object, is_node));
                }
            }
            proof {
                if wants_restore(e) {
                    let t = choose|t: ID| lifted(e, t);
                }
                if exists|q: int| r0.len() <= q < result@.len() && restores_obj(result@[q], object, is_node) {
                    let q = choose|q: int| r0.len() <= q < result@.len() && restores_obj(result@[q], object, is_node);
                    assert(result@[q] == delete_op(object, is_node));
                }
            }
            Ok(())
        },
        Some(after) => {
            if edit.create.is_some() {
                if !after.alive() {
                    result.push(delete_of(is_node, object));
                    proof {
                        assert(result@[r0.len() as int] == delete_op(object, is_node));
                    }
                }
                proof {
                    if wants_restore(e) {
                        let t = choose|t: ID| lifted(e, t);
                    }
                    if exists|q: int| r0.len() <= q < result@.len() && restores_obj(result@[q], object, is_node) {
                        let q = choose|q: int| r0.len() <= q < result@.len() && restores_obj(result@[q], object, is_node);
                        assert(result@[q] == delete_op(object, is_node));
                    }
                }
                Ok(())
            } else {
                let before = match &edit.before {
                    Some(b) => b,
                    None => {
                        return Err(GraphError::InvalidOperation);
                    },
                };
                let was = before.active();
                let now = after.active();
                let mut removed: Vec<ID> = Vec::new();
                let mut q: usize = 0;
                while q < was.len()
                    invariant
                        q <= was@.len(),
                        forall|t: ID| #[trigger] removed@.contains(t) <==> (exists|m: int| 0 <= m < q && was@[m] == t) && !now@.contains(t),
                        crate::idmap::sorted_ids(was@),
                        crate::idmap::sorted_ids(removed@),
                        forall|j: int| 0 <= j < removed@.len() ==> exists|m: int| 0 <= m < q && #[trigger] removed@[j] == was@[m],
                    decreases was@.len() - q,
                {
                    let ghost rm0 = removed@;
                    if !listed(&now, was[q]) {
                        removed.push(was[q]);
                        proof {
                            assert forall|a: int, b: int| 0 <= a < b < removed@.len() implies id_lt(removed@[a], removed@[b]) by {
                                if b == rm0.len() {
                                    let m = choose|m: int| 0 <= m < q && #[trigger] rm0[a] == was@[m];
                                    assert(removed@[a] == rm0[a]);
                                } else {
                                    assert(removed@[a] == rm0[a] && removed@[b] == rm0[b]);
                                }
                            }
                            assert forall|j: int| 0 <= j < removed@.len() implies exists|m: int| 0 <= m < q + 1 && #[trigger] removed@[j] == was@[m] by {
                                if j < rm0.len() {
                                    assert(removed@[j] == rm0[j]);
                                    let m = choose|m: int| 0 <= m < q && #[trigger] rm0[j] == was@[m];
                                } else {
                                    assert(removed@[j] == was@[q as int]);
                                }
                            }
                        }
                    } else {
                        proof {
                            assert forall|j: int| 0 <= j < removed@.len() implies exists|m: int| 0 <= m < q + 1 && #[trigger] removed@[j] == was@[m] by {
                                let m = choose|m: int| 0 <= m < q && #[trigger] removed@[j] == was@[m];
                            }
                        }
                    }
                    proof {
                        assert forall|t: ID| #[trigger] removed@.contains(t) <==> (exists|m: int| 0 <= m < q + 1 && was@[m] == t) && !now@.contains(t) by {
                            if removed@.contains(t) {
                                let j = choose|j: int| 0 <= j < removed@.len() && removed@[j] == t;
                                if j < rm0.len() {
                                    assert(rm0[j] == t);
                                    assert(rm0.contains(t));
                                }
                            }
                            if (exists|m: int| 0 <= m < q + 1 && was@[m] == t) && !now@.contains(t) {
                                let m = choose|m: int| 0 <= m < q + 1 && was@[m] == t;
                                if m < q {
                                    assert(rm0.contains(t));
                                    let j = choose|j: int| 0 <= j < rm0.len() && rm0[j] == t;
                                    assert(removed@[j] == t);
                                } else {
                                    assert(removed@[rm0.len() as int] == t);
                                }
                            }
                        }
                    }
                    q += 1;
                }
                let mut added = false;
                let mut q: usize = 0;
                while q < now.len()
                    invariant
                        q <= now@.len(),
                        added <==> exists|m: int| 0 <= m < q && !was@.contains(#[trigger] now@[m]),
                    decreases now@.len() - q,
                {
                    if !listed(&was, now[q]) {
                        added = true;
                    }
                    q += 1;
                }
                proof {
                    assert forall|t: ID| #[trigger] removed@.contains(t) <==> lifted(e, t) by {
                        if was@.contains(t) {
                            let m = choose|m: int| 0 <= m < was@.len() && was@[m] == t;
                        }
                    }
                    if added {
                        let m = choose|m: int| 0 <= m < now@.len() && !was@.contains(#[trigger] now@[m]);
                        assert(now@.contains(now@[m]));
                        assert(is_active_tag(after@, now@[m]) && !is_active_tag(before@, now@[m]));
                    }
                    if gains_delete(e) {
                        let t = choose|t: ID| is_active_tag(after@, t) && !is_active_tag(before@, t);
                        assert(now@.contains(t));
                        let m = choose|m: int| 0 <= m < now@.len() && now@[m] == t;
                        assert(!was@.contains(now@[m]));
                    }
                }
                let ghost removed_v = removed@;
                let has_removed = removed.len() > 0;
                if has_removed {
                    result.push(restore_of(is_node, object, removed));
                    proof {
                        assert(restores_obj(result@[r0.len() as int], object, is_node));
                        assert(restore_lifts(result@[r0.len() as int], e));
                    }
                }
                let ghost r1 = result@;
                if added {
                    result.push(delete_of(is_node, object));
                    proof {
                        assert(result@[r1.len() as int] == delete_op(object, is_node));
                    }
                }
                proof {
                    if wants_restore(e) {
                        let t = choose|t: ID| lifted(e, t);
                        assert(removed_v.contains(t));
                    }
                    if has_removed {
                        assert(removed_v.contains(removed_v[0]));
                        assert(lifted(e, removed_v[0]));
                        assert(result@[r0.len() as int] == r1[r0.len() as int]);
                        assert(restores_obj(result@[r0.len() as int], object, is_node));
                    }
                    assert forall|q: int| r0.len() <= q < result@.len() implies (result@[q] == delete_op(object, is_node)
                        || restores_obj(result@[q], object, is_node)) && restore_lifts(result@[q], e) by {
                        if has_removed && q == r0.len() {
                        } else {
                            assert(result@[q] == delete_op(object, is_node));
                        }
                    }
                    if exists|q: int| r0.len() <= q < result@.len() && restores_obj(result@[q], object, is_node) {
                        let q = choose|q: int| r0.len() <= q < result@.len() && restores_obj(result@[q], object, is_node);
                        if !(has_removed && q == r0.len()) {
                            assert(result@[q] == delete_op(object, is_node));
                        }
                    }
                    if exists|q: int| r0.len() <= q < result@.len() && result@[q] == delete_op(object, is_node) {
                        let q = choose|q: int| r0.len() <= q < result@.len() && result@[q] == delete_op(object, is_node);
                        if has_removed && q == r0.len() {
                            assert(restores_obj(result@[q], object, is_node));
                        }
                    }
                }
                Ok(())
            }
        },
    }
}

/// `op` is a lifecycle operation (delete or restore) about `x`.
pub open spec fn lifecycle_about(op: GraphOp, x: ID, is_node: bool) -> bool {
    op == delete_op(x, is_node) || restores_obj(op, x, is_node)
}

/// Some operation of `s` from position `from` on deletes `x`.
pub open spec fn has_delete(s: Seq<GraphOp>, from: int, x: ID, is_node: bool) -> bool {
    exists|q: int| from <= q < s.len() && s[q] == delete_op(x, is_node)
}

/// Some operation of `s` from position `from` on restores `x`.
pub open spec fn has_restore(s: Seq<GraphOp>, from: int, x: ID, is_node: bool) -> bool {
    exists|q: int| from <= q < s.len() && restores_obj(s[q], x, is_node)
}

/// Every operation of `s` from `from` on is a lifecycle operation about one of
/// the first `k` edits of `list`, and a restore names that edit's lifted deletes.
pub open spec fn lifecycle_region(s: Seq<GraphOp>, from: int, list: IdMap<Edit>, k: int, is_node: bool) -> bool {
    forall|q: int|
        #![trigger s[q]]
        from <= q < s.len() ==> exists|j: int|
            0 <= j < k && lifecycle_about(s[q], #[trigger] list.keys()[j], is_node) && restore_lifts(
                s[q],
                edit_view(list.entries@[j].1),
            )
}

/// The lifecycle operations for the first `k` edits of `list` are the ones they need.
pub open spec fn lifecycle_done(s: Seq<GraphOp>, from: int, list: IdMap<Edit>, k: int, is_node: bool) -> bool {
    &&& forall|j: int| 0 <= j < k ==> !edit_broken(edit_view(#[trigger] list.entries@[j].1))
    &&& forall|j: int|
        0 <= j < k ==> (has_delete(s, from, #[trigger] list.keys()[j], is_node) <==> wants_delete(edit_view(list.entries@[j].1)))
    &&& forall|j: int|
        0 <= j < k ==> (has_restore(s, from, #[trigger] list.keys()[j], is_node) <==> wants_restore(edit_view(list.entries@[j].1)))
}

proof fn lemma_lifecycle_step(
    list: IdMap<Edit>,
    is_node: bool,
    from: int,
    before: Seq<GraphOp>,
    after: Seq<GraphOp>,
    k: int,
)
    requires
        list.wf(),
        0 <= k < list.entries@.len(),
        0 <= from <= before.len() <= after.len(),
        forall|q: int| 0 <= q < before.len() ==> after[q] == before[q],
        lifecycle_region(before, from, list, k, is_node),
        lifecycle_done(before, from, list, k, is_node),
        !edit_broken(edit_view(list.entries@[k].1)),
        forall|q: int|
            before.len() <= q < after.len() ==> lifecycle_about(after[q], list.keys()[k], is_node) && restore_lifts(
                after[q],
                edit_view(list.entries@[k].1),
            ),
        has_delete(after, before.len() as int, list.keys()[k], is_node) <==> wants_delete(edit_view(list.entries@[k].1)),
        has_restore(after, before.len() as int, list.keys()[k], is_node) <==> wants_restore(edit_view(list.entries@[k].1)),
    ensures
        lifecycle_region(after, from, list, k + 1, is_node),
        lifecycle_done(after, from, list, k + 1, is_node),
{
    let object = list.keys()[k];
    assert forall|j: int| 0 <= j < k implies list.keys()[j] != object by {
        assert(crate::ids::id_lt(list.keys()[j], list.keys()[k]));
    }
    assert forall|q: int|
        #![trigger after[q]]
        from <= q < after.len() implies exists|j: int|
            0 <= j < k + 1 && lifecycle_about(after[q], #[trigger] list.keys()[j], is_node) && restore_lifts(
                after[q],
                edit_view(list.entries@[j].1),
            ) by {
        if q < before.len() {
            assert(after[q] == before[q]);
            let j = choose|j: int|
                0 <= j < k && lifecycle_about(before[q], #[trigger] list.keys()[j], is_node) && restore_lifts(
                    before[q],
                    edit_view(list.entries@[j].1),
                );
        } else {
            assert(lifecycle_about(after[q], list.keys()[k], is_node));
        }
    }
    assert forall|j: int|
        0 <= j < k + 1 implies (has_delete(after, from, #[trigger] list.keys()[j], is_node) <==> wants_delete(
            edit_view(list.entries@[j].1),
        )) by {
        let x = list.keys()[j];
        if has_delete(after, from, x, is_node) {
            let q = choose|q: int| from <= q < after.len() && after[q] == delete_op(x, is_node);
            if q < before.len() {
                assert(before[q] == delete_op(x, is_node));
                if j == k {
                    let i = choose|i: int|
                        0 <= i < k && lifecycle_about(before[q], #[trigger] list.keys()[i], is_node) && restore_lifts(
                            before[q],
                            edit_view(list.entries@[i].1),
                        );
                    assert(list.keys()[i] != object);
                }
                assert(has_delete(before, from, x, is_node));
            } else {
                assert(lifecycle_about(after[q], object, is_node));
                if j < k {
                    assert(x != object);
                }
                assert(has_delete(after, before.len() as int, x, is_node));
            }
        }
        if j < k && has_delete(before, from, x, is_node) {
            let q = choose|q: int| from <= q < before.len() && before[q] == delete_op(x, is_node);
            assert(after[q] == before[q]);
        }
        if j == k && has_delete(after, before.len() as int, x, is_node) {
            let q = choose|q: int| before.len() <= q < after.len() && after[q] == delete_op(x, is_node);
        }
    }
    assert forall|j: int|
        0 <= j < k + 1 implies (has_restore(after, from, #[trigger] list.keys()[j], is_node) <==> wants_restore(
            edit_view(list.entries@[j].1),
        )) by {
        let x = list.keys()[j];
        if has_restore(after, from, x, is_node) {
            let q = choose|q: int| from <= q < after.len() && restores_obj(after[q], x, is_node);
            if q < before.len() {
                assert(before[q] == after[q]);
                if j == k {
                    let i = choose|i: int|
                        0 <= i < k && lifecycle_about(before[q], #[trigger] list.keys()[i], is_node) && restore_lifts(
                            before[q],
                            edit_view(list.entries@[i].1),
                        );
                    assert(list.keys()[i] != object);
                }
                assert(has_restore(before, from, x, is_node));
            } else {
                assert(lifecycle_about(after[q], object, is_node));
                if j < k {
                    assert(x != object);
                }
                assert(has_restore(after, before.len() as int, x, is_node));
            }
        }
        if j < k && has_restore(before, from, x, is_node) {
            let q = choose|q: int| from <= q < before.len() && restores_obj(before[q], x, is_node);
            assert(after[q] == before[q]);
        }
        if j == k && has_restore(after, before.len() as int, x, is_node) {
            let q = choose|q: int| before.len() <= q < after.len() && restores_obj(after[q], x, is_node);
        }
    }
}

/// `op` is a lifecycle operation of some edit of `list`, restoring only its lifted deletes.
pub open spec fn owned_by(op: GraphOp, list: IdMap<Edit>, is_node: bool) -> bool {
    exists|x: ID|
        #[trigger] list@.contains_key(x) && lifecycle_about(op, x, is_node) && restore_lifts(op, edit_view(list@[x]))
}

proof fn lemma_region_by_key(s: Seq<GraphOp>, from: int, list: IdMap<Edit>, k: int, is_node: bool)
    requires
        list.wf(),
        0 <= k <= list.entries@.len(),
        lifecycle_region(s, from, list, k, is_node),
    ensures
        forall|q: int| from <= q < s.len() ==> owned_by(#[trigger] s[q], list, is_node),
{
    assert forall|q: int| from <= q < s.len() implies owned_by(#[trigger] s[q], list, is_node) by {
        let j = choose|j: int|
            0 <= j < k && lifecycle_about(s[q], #[trigger] list.keys()[j], is_node) && restore_lifts(
                s[q],
                edit_view(list.entries@[j].1),
            );
        list.lemma_at(j);
        let x = list.keys()[j];
        assert(list@.contains_key(x) && list@[x] == list.entries@[j].1);
        assert(lifecycle_about(s[q], x, is_node));
        assert(restore_lifts(s[q], edit_view(list@[x])));
    }
}

/// The lifecycle operations of a plan made of creations, the node edits'
/// operations, the edge edits' operations and order writes, in that order.
proof fn lemma_plan_lifecycle(
    g: GraphView,
    remap: Map<ID, ID>,
    ops: Seq<GraphChange>,
    edits: Edits,
    creates: Seq<GraphOp>,
    p1: Seq<GraphOp>,
    p2: Seq<GraphOp>,
    plan: Seq<GraphOp>,
)
    requires
        edits.wf(),
        creates.len() <= p1.len() <= p2.len() <= plan.len(),
        forall|q: int| 0 <= q < creates.len() ==> (#[trigger] creates[q] is CreateNode || creates[q] is CreateEdge),
        forall|q: int| 0 <= q < creates.len() ==> p1[q] == creates[q],
        forall|q: int| 0 <= q < p1.len() ==> p2[q] == p1[q],
        forall|q: int| 0 <= q < p2.len() ==> plan[q] == p2[q],
        forall|q: int| creates.len() <= q < p1.len() ==> owned_by(#[trigger] p1[q], edits.nodes, true),
        forall|q: int| p1.len() <= q < p2.len() ==> owned_by(#[trigger] p2[q], edits.edges, false),
        forall|q: int| p2.len() <= q < plan.len() ==> (#[trigger] plan[q]) is SetEdgeOrder,
        forall|x: ID|
            #[trigger] edits.nodes@.contains_key(x) ==> (has_delete(p1, creates.len() as int, x, true) <==> wants_delete(edit_view(edits.nodes@[x]))),
        forall|x: ID|
            #[trigger] edits.nodes@.contains_key(x) ==> (has_restore(p1, creates.len() as int, x, true) <==> wants_restore(edit_view(edits.nodes@[x]))),
        forall|x: ID|
            #[trigger] edits.edges@.contains_key(x) ==> (has_delete(p2, p1.len() as int, x, false) <==> wants_delete(edit_view(edits.edges@[x]))),
        forall|x: ID|
            #[trigger] edits.edges@.contains_key(x) ==> (has_restore(p2, p1.len() as int, x, false) <==> wants_restore(edit_view(edits.edges@[x]))),
        forall|x: ID| #[trigger] edits.nodes@.contains_key(x) ==> edit_fold(g, remap, ops, ops.len() as int, x, true) == Some(edit_view(edits.nodes@[x])),
        forall|x: ID| #[trigger] edits.edges@.contains_key(x) ==> edit_fold(g, remap, ops, ops.len() as int, x, false) == Some(edit_view(edits.edges@[x])),
        forall|x: ID| !edits.nodes@.contains_key(x) ==> #[trigger] edit_fold(g, remap, ops, ops.len() as int, x, true) == Some(edit_start(g, remap, x, true)),
        forall|x: ID| !edits.edges@.contains_key(x) ==> #[trigger] edit_fold(g, remap, ops, ops.len() as int, x, false) == Some(edit_start(g, remap, x, false)),
    ensures
        forall|x: ID, is_node: bool|
            #![trigger edit_fold(g, remap, ops, ops.len() as int, x, is_node)]
            edit_fold(g, remap, ops, ops.len() as int, x, is_node) is Some && (has_delete(plan, 0, x, is_node) <==> wants_delete(
                edit_fold(g, remap, ops, ops.len() as int, x, is_node)->Some_0,
            )) && (has_restore(plan, 0, x, is_node) <==> wants_restore(
                edit_fold(g, remap, ops, ops.len() as int, x, is_node)->Some_0,
            )) && (forall|q: int|
                0 <= q < plan.len() && restores_obj(#[trigger] plan[q], x, is_node) ==> restore_lifts(
                    plan[q],
                    edit_fold(g, remap, ops, ops.len() as int, x, is_node)->Some_0,
                )),
{
    let n = ops.len() as int;
    assert forall|x: ID, is_node: bool|
        #![trigger edit_fold(g, remap, ops, n, x, is_node)]
        edit_fold(g, remap, ops, n, x, is_node) is Some && (has_delete(plan, 0, x, is_node) <==> wants_delete(
            edit_fold(g, remap, ops, n, x, is_node)->Some_0,
        )) && (has_restore(plan, 0, x, is_node) <==> wants_restore(edit_fold(g, remap, ops, n, x, is_node)->Some_0))
            && (forall|q: int|
            0 <= q < plan.len() && restores_obj(#[trigger] plan[q], x, is_node) ==> restore_lifts(
                plan[q],
                edit_fold(g, remap, ops, n, x, is_node)->Some_0,
            )) by {
        let list = if is_node { edits.nodes } else { edits.edges };
        let lo = if is_node { creates.len() as int } else { p1.len() as int };
        let hi = if is_node { p1.len() as int } else { p2.len() as int };
        let e = edit_fold(g, remap, ops, n, x, is_node)->Some_0;
        // Every lifecycle operation about x of this sort lies in [lo, hi) and belongs to x's edit.
        assert forall|q: int| 0 <= q < plan.len() && lifecycle_about(#[trigger] plan[q], x, is_node) implies lo <= q < hi
            && list@.contains_key(x) && restore_lifts(plan[q], edit_view(list@[x])) by {
            if q < creates.len() {
                assert(plan[q] == creates[q]);
            } else if q < p1.len() {
                assert(plan[q] == p1[q]);
                assert(owned_by(p1[q], edits.nodes, true));
                let y = choose|y: ID|
                    #[trigger] edits.nodes@.contains_key(y) && lifecycle_about(p1[q], y, true) && restore_lifts(p1[q], edit_view(edits.nodes@[y]));
                if is_node {
                    assert(y == x);
                }
            } else if q < p2.len() {
                assert(plan[q] == p2[q]);
                assert(owned_by(p2[q], edits.edges, false));
                let y = choose|y: ID|
                    #[trigger] edits.edges@.contains_key(y) && lifecycle_about(p2[q], y, false) && restore_lifts(p2[q], edit_view(edits.edges@[y]));
                if !is_node {
                    assert(y == x);
                }
            }
        }
        let pre = if is_node { p1 } else { p2 };
        if list@.contains_key(x) {
            assert(e == edit_view(list@[x]));
            if has_delete(plan, 0, x, is_node) {
                let q = choose|q: int| 0 <= q < plan.len() && plan[q] == delete_op(x, is_node);
                assert(lifecycle_about(plan[q], x, is_node));
                assert(pre[q] == plan[q]);
                assert(has_delete(pre, lo, x, is_node));
            }
            if has_delete(pre, lo, x, is_node) {
                let q = choose|q: int| lo <= q < pre.len() && pre[q] == delete_op(x, is_node);
                assert(plan[q] == pre[q]);
            }
            if has_restore(plan, 0, x, is_node) {
                let q = choose|q: int| 0 <= q < plan.len() && restores_obj(plan[q], x, is_node);
                assert(lifecycle_about(plan[q], x, is_node));
                assert(pre[q] == plan[q]);
                assert(has_restore(pre, lo, x, is_node));
            }
            if has_restore(pre, lo, x, is_node) {
                let q = choose|q: int| lo <= q < pre.len() && restores_obj(pre[q], x, is_node);
                assert(plan[q] == pre[q]);
            }
        } else {
            assert(e == edit_start(g, remap, x, is_node));
            if has_delete(plan, 0, x, is_node) {
                let q = choose|q: int| 0 <= q < plan.len() && plan[q] == delete_op(x, is_node);
                assert(lifecycle_about(plan[q], x, is_node));
            }
            if has_restore(plan, 0, x, is_node) {
                let q = choose|q: int| 0 <= q < plan.len() && restores_obj(plan[q], x, is_node);
                assert(lifecycle_about(plan[q], x, is_node));
            }
            if wants_restore(e) {
                let t = choose|t: ID| lifted(e, t);
            }
        }
        assert forall|q: int| 0 <= q < plan.len() && restores_obj(#[trigger] plan[q], x, is_node) implies restore_lifts(plan[q], e) by {
            assert(lifecycle_about(plan[q], x, is_node));
        }
    }
}

/// `op` creates `x` (a node or an edge).
pub open spec fn creates_obj(op: GraphOp, x: ID, is_node: bool) -> bool {
    (if is_node { op is CreateNode } else { op is CreateEdge }) && op_object(op) == x
}

/// The edit recreates its object and keeps it.
pub open spec fn edit_creates(e: Edit) -> bool {
    e.after is Some && e.create is Some
}

/// `op` creates a node whose edit recreates and keeps it.
pub open spec fn creates_node_edit(op: GraphOp, edits: Edits) -> bool {
    exists|x: ID| #[trigger] edits.nodes@.contains_key(x) && creates_obj(op, x, true) && edit_creates(edits.nodes@[x])
}

/// `op` creates an edge whose edit recreates and keeps it.
pub open spec fn creates_edge_edit(op: GraphOp, edits: Edits) -> bool {
    exists|x: ID| #[trigger] edits.edges@.contains_key(x) && creates_obj(op, x, false) && edit_creates(edits.edges@[x])
}

/// Some operation of `s` creates `x`.
pub open spec fn has_create(s: Seq<GraphOp>, x: ID, is_node: bool) -> bool {
    exists|q: int| 0 <= q < s.len() && creates_obj(s[q], x, is_node)
}

/// The creations of a plan whose other operations are lifecycle operations and order writes.
proof fn lemma_plan_creations(
    g: GraphView,
    remap: Map<ID, ID>,
    ops: Seq<GraphChange>,
    edits: Edits,
    creates: Seq<GraphOp>,
    plan: Seq<GraphOp>,
)
    requires
        edits.wf(),
        creates.len() <= plan.len(),
        forall|q: int| 0 <= q < creates.len() ==> plan[q] == creates[q],
        forall|q: int| 0 <= q < creates.len() ==> creates_node_edit(#[trigger] creates[q], edits) || creates_edge_edit(creates[q], edits),
        forall|q: int| creates.len() <= q < plan.len() ==> !(#[trigger] plan[q] is CreateNode) && !(plan[q] is CreateEdge),
        forall|x: ID| #[trigger] edits.nodes@.contains_key(x) && edit_creates(edits.nodes@[x]) ==> has_create(creates, x, true),
        forall|x: ID| #[trigger] edits.edges@.contains_key(x) && edit_creates(edits.edges@[x]) ==> has_create(creates, x, false),
        forall|x: ID| #[trigger] edits.nodes@.contains_key(x) ==> edit_fold(g, remap, ops, ops.len() as int, x, true) == Some(edit_view(edits.nodes@[x])),
        forall|x: ID| #[trigger] edits.edges@.contains_key(x) ==> edit_fold(g, remap, ops, ops.len() as int, x, false) == Some(edit_view(edits.edges@[x])),
        forall|x: ID| !edits.nodes@.contains_key(x) ==> #[trigger] edit_fold(g, remap, ops, ops.len() as int, x, true) == Some(edit_start(g, remap, x, true)),
        forall|x: ID| !edits.edges@.contains_key(x) ==> #[trigger] edit_fold(g, remap, ops, ops.len() as int, x, false) == Some(edit_start(g, remap, x, false)),
    ensures
        forall|x: ID, is_node: bool|
            #![trigger edit_fold(g, remap, ops, ops.len() as int, x, is_node)]
            has_create(plan, x, is_node) <==> (edit_fold(g, remap, ops, ops.len() as int, x, is_node)->Some_0.1 is Some
                && edit_fold(g, remap, ops, ops.len() as int, x, is_node)->Some_0.2),
{
    let n = ops.len() as int;
    assert forall|x: ID, is_node: bool|
        #![trigger edit_fold(g, remap, ops, n, x, is_node)]
        has_create(plan, x, is_node) <==> (edit_fold(g, remap, ops, n, x, is_node)->Some_0.1 is Some
            && edit_fold(g, remap, ops, n, x, is_node)->Some_0.2) by {
        let list = if is_node { edits.nodes } else { edits.edges };
        let e = edit_fold(g, remap, ops, n, x, is_node)->Some_0;
        if has_create(plan, x, is_node) {
            let q = choose|q: int| 0 <= q < plan.len() && creates_obj(plan[q], x, is_node);
            assert(q < creates.len());
            assert(plan[q] == creates[q]);
            if creates_node_edit(creates[q], edits) {
                let y = choose|y: ID| #[trigger] edits.nodes@.contains_key(y) && creates_obj(creates[q], y, true) && edit_creates(edits.nodes@[y]);
                assert(is_node && y == x);
            } else {
                let y = choose|y: ID| #[trigger] edits.edges@.contains_key(y) && creates_obj(creates[q], y, false) && edit_creates(edits.edges@[y]);
                assert(!is_node && y == x);
            }
            assert(list@.contains_key(x));
            assert(e == edit_view(list@[x]));
        }
        if list@.contains_key(x) {
            assert(e == edit_view(list@[x]));
            if e.1 is Some && e.2 {
                assert(edit_creates(list@[x]));
                assert(has_create(creates, x, is_node));
                let q = choose|q: int| 0 <= q < creates.len() && creates_obj(creates[q], x, is_node);
                assert(plan[q] == creates[q]);
            }
        } else {
            assert(e == edit_start(g, remap, x, is_node));
        }
    }
}

/// Append the net lifecycle operations of every edit of `list`, in identity order.
fn push_lifecycle_ops(result: &mut Vec<GraphOp>, list: &IdMap<Edit>, is_node: bool) -> (r: Result<(), GraphError>)
    requires
        list.wf(),
        forall|x: ID| #[trigger] list@.contains_key(x) ==> list@[x].wf(),
    ensures
        final(result)@.len() >= old(result)@.len(),
        forall|q: int| 0 <= q < old(result)@.len() ==> final(result)@[q] == old(result)@[q],
        forall|q: int| old(result)@.len() <= q < final(result)@.len() ==> owned_by(#[trigger] final(result)@[q], *list, is_node),
        r is Ok <==> forall|x: ID| #[trigger] list@.contains_key(x) ==> !edit_broken(edit_view(list@[x])),
        r is Ok ==> forall|x: ID|
            #[trigger] list@.contains_key(x) ==> (has_delete(final(result)@, old(result)@.len() as int, x, is_node)
                <==> wants_delete(edit_view(list@[x]))),
        r is Ok ==> forall|x: ID|
            #[trigger] list@.contains_key(x) ==> (has_restore(final(result)@, old(result)@.len() as int, x, is_node)
                <==> wants_restore(edit_view(list@[x]))),
        no_twins(final(result)@, old(result)@.len() as int),
        forall|q: int| old(result)@.len() <= q < final(result)@.len() ==> restore_sorted(#[trigger] final(result)@[q]),
{
    let ghost r0 = result@;
    proof {
        list.lemma_view();
    }
    let mut k: usize = 0;
    while k < list.len()
        invariant
            list.wf(),
            forall|x: ID| #[trigger] list@.contains_key(x) ==> list@[x].wf(),
            k <= list.entries@.len(),
            r0 == old(result)@,
            result@.len() >= r0.len(),
            forall|q: int| 0 <= q < r0.len() ==> result@[q] == r0[q],
            lifecycle_region(result@, r0.len() as int, *list, k as int, is_node),
            lifecycle_done(result@, r0.len() as int, *list, k as int, is_node),
            no_twins(result@, r0.len() as int),
            forall|q: int| r0.len() <= q < result@.len() ==> restore_sorted(#[trigger] result@[q]),
        decreases list.entries@.len() - k,
    {
        let object = list.key_at(k);
        let edit = list.value_at(k);
        proof {
            list.lemma_at(k as int);
        }
        let ghost before = result@;
        match push_net_ops(result, is_node, object, edit) {
            Ok(()) => {},
            Err(e) => {
                proof {
                    assert(list@.contains_key(object) && list@[object] == *edit);
                    lemma_region_by_key(result@, r0.len() as int, *list, k as int, is_node);
                }
                return Err(e);
            },
        }
        proof {
            assert(list.keys()[k as int] == object);
            assert forall|q1: int, q2: int| r0.len() <= q1 < q2 < result@.len() implies !lifecycle_twins(#[trigger] result@[q1], #[trigger] result@[q2]) by {
                if q2 < before.len() {
                    assert(result@[q1] == before[q1] && result@[q2] == before[q2]);
                } else if q1 < before.len() {
                    assert(result@[q1] == before[q1]);
                    let j = choose|j: int|
                        0 <= j < k && lifecycle_about(before[q1], #[trigger] list.keys()[j], is_node) && restore_lifts(
                            before[q1],
                            edit_view(list.entries@[j].1),
                        );
                    assert(id_lt(list.keys()[j], list.keys()[k as int]));
                }
            }
            assert forall|q: int| r0.len() <= q < result@.len() implies restore_sorted(#[trigger] result@[q]) by {
                if q < before.len() {
                    assert(result@[q] == before[q]);
                }
            }
            lemma_lifecycle_step(*list, is_node, r0.len() as int, before, result@, k as int);
        }
        k += 1;
    }
    proof {
        lemma_region_by_key(result@, r0.len() as int, *list, k as int, is_node);
        assert forall|x: ID| #[trigger] list@.contains_key(x) implies !edit_broken(edit_view(list@[x]))
            && (has_delete(result@, r0.len() as int, x, is_node) <==> wants_delete(edit_view(list@[x])))
            && (has_restore(result@, r0.len() as int, x, is_node) <==> wants_restore(edit_view(list@[x]))) by {
            let j = choose|j: int| 0 <= j < list.entries@.len() && list.entries@[j].0 == x;
            list.lemma_at(j);
            assert(list.keys()[j] == x);
        }
    }
    Ok(())
}

/// `x` is touched by the diff: some operation or order delta is about it.
pub open spec fn touched(diff: GraphDiff, x: ID) -> bool {
    (exists|i: int| 0 <= i < diff.ops@.len() && op_object(#[trigger] diff.ops@[i].op) == x) || diff.orders@.contains_key(x)
}

/// A copy of an operation.
fn copy_op(op: &GraphOp) -> (r: GraphOp)
    ensures
        op_object(r) == op_object(*op),
        r is CreateNode <==> op is CreateNode,
        r is CreateEdge <==> op is CreateEdge,
        r is DeleteNode <==> op is DeleteNode,
        r is DeleteEdge <==> op is DeleteEdge,
        r is RestoreNode <==> op is RestoreNode,
        r is RestoreEdge <==> op is RestoreEdge,
        r is SetEdgeOrder <==> op is SetEdgeOrder,
        (op, r) matches (GraphOp::CreateEdge { source: s0, target: t0, .. }, GraphOp::CreateEdge { source: s1, target: t1, .. }) ==> s0 == s1 && t0 == t1,
        (op, r) matches (GraphOp::CreateEdge { position: p0, .. }, GraphOp::CreateEdge { position: p1, .. }) ==> p0@ == p1@,
{
    match op {
        GraphOp::CreateNode { id } => GraphOp::CreateNode { id: *id },
        GraphOp::CreateEdge { id, source, target, position } => GraphOp::CreateEdge {
            id: *id,
            source: *source,
            target: *target,
            position: position.clone(),
        },
        GraphOp::DeleteNode { id } => GraphOp::DeleteNode { id: *id },
        GraphOp::DeleteEdge { id } => GraphOp::DeleteEdge { id: *id },
        GraphOp::RestoreNode { id, deletes } => GraphOp::RestoreNode { id: *id, deletes: crate::life::copy_ids(deletes) },
        GraphOp::RestoreEdge { id, deletes } => GraphOp::RestoreEdge { id: *id, deletes: crate::life::copy_ids(deletes) },
        GraphOp::SetEdgeOrder { id, position } => GraphOp::SetEdgeOrder { id: *id, position: position.clone() },
    }
}

/// Whether an optional lifecycle is present and alive.
fn alive_opt(l: &Option<Life>) -> (r: bool)
    requires
        l matches Some(x) ==> x.wf(),
    ensures
        r == (l matches Some(x) && life_alive(x@)),
{
    match l {
        Some(x) => x.alive(),
        None => false,
    }
}

/// `(position, id)` of `a` comes strictly before that of `b`.
pub open spec fn key_lt(a: CopyOrderEdge, b: CopyOrderEdge) -> bool {
    lex_lt(a.position@, b.position@) || (a.position@ == b.position@ && id_lt(a.id.spec_id(), b.id.spec_id()))
}

fn key_less(a: &CopyOrderEdge, b: &CopyOrderEdge) -> (r: bool)
    ensures
        r == key_lt(*a, *b),
{
    a.position.less(&b.position) || (a.position.same(&b.position) && id_less(a.id.id(), b.id.id()))
}

/// `r` holds `v`'s entries rearranged: place `p` of `r` holds place `perm[p]` of
/// `v`, and no place of `v` is used twice.
pub open spec fn rearranges(v: Seq<CopyOrderEdge>, r: Seq<CopyOrderEdge>, perm: Seq<int>) -> bool {
    &&& perm.len() == r.len()
    &&& forall|p: int| 0 <= p < r.len() ==> 0 <= #[trigger] perm[p] < v.len() && r[p] == v[perm[p]]
    &&& forall|p1: int, p2: int| 0 <= p1 < r.len() && 0 <= p2 < r.len() && p1 != p2 ==> #[trigger] perm[p1] != #[trigger] perm[p2]
}

proof fn lemma_key_lt_transitive(a: CopyOrderEdge, b: CopyOrderEdge, c: CopyOrderEdge)
    requires
        key_lt(a, b),
        key_lt(b, c),
    ensures
        key_lt(a, c),
{
    if lex_lt(a.position@, b.position@) && lex_lt(b.position@, c.position@) {
        lemma_lex_transitive(a.position@, b.position@, c.position@);
    }
}

proof fn lemma_key_lt_irreflexive(a: CopyOrderEdge)
    ensures
        !key_lt(a, a),
{
    crate::position::lemma_lex_irreflexive(a.position@);
}

/// Sort by `(position, id)`. The result is a rearrangement of the input: every
/// input entry occurs in it, and distinct places of the result hold distinct
/// places of the input.
fn sort_by_key(v: Vec<CopyOrderEdge>) -> (r: Vec<CopyOrderEdge>)
    ensures
        sorted_positions(r@),
        r@.len() == v@.len(),
        forall|i: int| 0 <= i < r@.len() ==> v@.contains(#[trigger] r@[i]),
        forall|a: int, b: int| 0 <= a < b < r@.len() ==> !key_lt(#[trigger] r@[b], #[trigger] r@[a]),
        forall|t: int| 0 <= t < v@.len() ==> #[trigger] r@.contains(v@[t]),
        exists|perm: Seq<int>| #[trigger] rearranges(v@, r@, perm),
{
    let ghost v0 = v@;
    let mut out: Vec<CopyOrderEdge> = Vec::new();
    let mut rest = v;
    let ghost n = rest@.len();
    let ghost mut perm: Seq<int> = seq![];
    proof {
        assert(rest@ =~= v0.subrange(0, n as int));
    }
    while rest.len() > 0
        invariant
            sorted_positions(out@),
            out@.len() + rest@.len() == n,
            n == v0.len(),
            rest@ == v0.subrange(out@.len() as int, n as int),
            perm.len() == out@.len(),
            forall|p: int| 0 <= p < out@.len() ==> 0 <= #[trigger] perm[p] < out@.len() && out@[p] == v0[perm[p]],
            forall|p1: int, p2: int| 0 <= p1 < out@.len() && 0 <= p2 < out@.len() && p1 != p2 ==> #[trigger] perm[p1] != #[trigger] perm[p2],
            forall|t: int| 0 <= t < out@.len() ==> #[trigger] perm.contains(t),
            forall|a: int, b: int| 0 <= a < b < out@.len() ==> !key_lt(#[trigger] out@[b], #[trigger] out@[a]),
        decreases rest@.len(),
    {
        let ghost rest0 = rest@;
        let ghost m = out@.len() as int;
        let x = rest.remove(0);
        proof {
            assert(rest0[0] == x);
            assert(x == v0[m]);
            assert(rest@ =~= v0.subrange(m + 1, n as int));
        }
        let mut j: usize = 0;
        while j < out.len() && !key_less(&x, &out[j])
            invariant
                j <= out@.len(),
                sorted_positions(out@),
                forall|k: int| 0 <= k < j ==> !key_lt(x, #[trigger] out@[k]),
            decreases out@.len() - j,
        {
            j += 1;
        }
        let ghost o0 = out@;
        let ghost p0 = perm;
        proof {
            assert forall|k: int| 0 <= k < j implies pos(o0, k) == x.position@ || lex_lt(pos(o0, k), x.position@) by {
                assert(!key_lt(x, o0[k]));
                if pos(o0, k) != x.position@ {
                    lemma_lex_total(pos(o0, k), x.position@);
                }
            }
            if j < o0.len() {
                assert(key_lt(x, o0[j as int]));
                assert forall|k: int| j <= k < o0.len() implies x.position@ == pos(o0, k) || lex_lt(x.position@, pos(o0, k)) by {
                    if k > j {
                        assert(pos(o0, j as int) == pos(o0, k) || lex_lt(pos(o0, j as int), pos(o0, k)));
                        if lex_lt(x.position@, pos(o0, j as int)) && lex_lt(pos(o0, j as int), pos(o0, k)) {
                            lemma_lex_transitive(x.position@, pos(o0, j as int), pos(o0, k));
                        }
                    }
                }
            }
        }
        let ghost px = x.position@;
        out.insert(j, x);
        proof {
            perm = p0.insert(j as int, m);
            assert(out@ == o0.insert(j as int, x));
            assert(pos(out@, j as int) == px);
            assert forall|p: int| 0 <= p < out@.len() implies 0 <= #[trigger] perm[p] < out@.len() && out@[p] == v0[perm[p]] by {
                if p < j {
                    assert(perm[p] == p0[p] && out@[p] == o0[p]);
                } else if p > j {
                    assert(perm[p] == p0[p - 1] && out@[p] == o0[p - 1]);
                }
            }
            assert forall|p1: int, p2: int| 0 <= p1 < out@.len() && 0 <= p2 < out@.len() && p1 != p2 implies #[trigger] perm[p1] != #[trigger] perm[p2] by {
                let q1 = if p1 < j { p1 } else { p1 - 1 };
                let q2 = if p2 < j { p2 } else { p2 - 1 };
                if p1 != j && p2 != j {
                    assert(perm[p1] == p0[q1] && perm[p2] == p0[q2]);
                } else if p1 == j {
                    assert(perm[p2] == p0[q2]);
                } else {
                    assert(perm[p1] == p0[q1]);
                }
            }
            assert forall|t: int| 0 <= t < out@.len() implies #[trigger] perm.contains(t) by {
                if t == m {
                    assert(perm[j as int] == t);
                } else {
                    assert(p0.contains(t));
                    let q = choose|q: int| 0 <= q < o0.len() && #[trigger] p0[q] == t;
                    if q < j {
                        assert(perm[q] == t);
                    } else {
                        assert(perm[q + 1] == t);
                    }
                }
            }
            assert forall|a: int, b: int| 0 <= a < b < out@.len() implies !key_lt(#[trigger] out@[b], #[trigger] out@[a]) by {
                if b < j {
                    assert(out@[a] == o0[a] && out@[b] == o0[b]);
                } else if b == j {
                    assert(out@[a] == o0[a]);
                } else if a < j {
                    assert(out@[a] == o0[a] && out@[b] == o0[b - 1]);
                } else if a == j {
                    assert(out@[b] == o0[b - 1]);
                    assert(key_lt(x, o0[j as int]));
                    if key_lt(o0[b - 1], x) {
                        lemma_key_lt_transitive(o0[b - 1], x, o0[j as int]);
                        if b - 1 == j {
                            lemma_key_lt_irreflexive(x);
                            lemma_key_lt_transitive(x, o0[j as int], x);
                        }
                    }
                } else {
                    assert(out@[a] == o0[a - 1] && out@[b] == o0[b - 1]);
                }
            }
            assert forall|a: int, b: int| 0 <= a < b < out@.len() implies pos(out@, a) == pos(out@, b) || lex_lt(pos(out@, a), pos(out@, b)) by {
                if b < j {
                    assert(out@[a] == o0[a] && out@[b] == o0[b]);
                    assert(pos(o0, a) == pos(o0, b) || lex_lt(pos(o0, a), pos(o0, b)));
                } else if b == j {
                    assert(out@[a] == o0[a]);
                    assert(pos(o0, a) == px || lex_lt(pos(o0, a), px));
                } else if a < j {
                    assert(out@[a] == o0[a] && out@[b] == o0[b - 1]);
                    let pa = pos(o0, a);
                    let pb = pos(o0, b - 1);
                    assert(pa == px || lex_lt(pa, px));
                    assert(px == pb || lex_lt(px, pb));
                    if pa != px && px != pb {
                        lemma_lex_transitive(pa, px, pb);
                    }
                } else if a == j {
                    assert(out@[b] == o0[b - 1]);
                    assert(px == pos(o0, b - 1) || lex_lt(px, pos(o0, b - 1)));
                } else {
                    assert(out@[a] == o0[a - 1] && out@[b] == o0[b - 1]);
                    assert(pos(o0, a - 1) == pos(o0, b - 1) || lex_lt(pos(o0, a - 1), pos(o0, b - 1)));
                }
            }
        }
    }
    proof {
        assert forall|i: int| 0 <= i < out@.len() implies v0.contains(#[trigger] out@[i]) by {
            assert(out@[i] == v0[perm[i]]);
        }
        assert forall|t: int| 0 <= t < v0.len() implies #[trigger] out@.contains(v0[t]) by {
            assert(perm.contains(t));
            let p = choose|p: int| 0 <= p < out@.len() && #[trigger] perm[p] == t;
            assert(out@[p] == v0[perm[p]]);
        }
        assert(rearranges(v0, out@, perm));
    }
    out
}

/// Without jitter, every key a copy planning could merge leaves room for one byte
/// per copied edge and per recorded edge.
pub open spec fn copy_room(g: GraphView, jitter: u8, creates: Seq<GraphOp>, orders: Map<ID, (GraphEdgeId, GraphPosition)>) -> bool {
    let l = creates.len() + g.edges.dom().len();
    &&& jitter == 0
    &&& forall|k: int| 0 <= k < creates.len() ==> (#[trigger] creates[k] matches GraphOp::CreateEdge { position, .. } ==> position@.len() + l <= crate::position::MAX_GRAPH_POSITION_BYTES)
    &&& forall|e: ID| #[trigger] g.edges.contains_key(e) ==> crate::register::winner_value(g.edges[e].orders).0.len() + l <= crate::position::MAX_GRAPH_POSITION_BYTES
    &&& forall|x: ID| #[trigger] orders.contains_key(x) ==> orders[x].1@.len() + l <= crate::position::MAX_GRAPH_POSITION_BYTES
}

/// Whether existing node `id` is alive once the non-creating edits apply: by the
/// lifecycle those edits leave where they touch it, else by its record.
pub open spec fn existing_alive(g: GraphView, edited: Map<ID, bool>, id: ID) -> bool {
    if edited.contains_key(id) {
        edited[id]
    } else {
        crate::state::node_alive(g, id)
    }
}

/// `op` is the order write for planned entry `x`: its edge and key, which moves
/// the key the edge holds here.
pub open spec fn order_write_of(g: GraphView, orders: Map<ID, (GraphEdgeId, GraphPosition)>, x: ID, op: GraphOp) -> bool {
    op matches GraphOp::SetEdgeOrder { id, position } && id == orders[x].0 && position@ == orders[x].1@ && g.edges.contains_key(x)
        && crate::register::winner_value(g.edges[x].orders).0 != position@
}

/// No two planned entries write through the same edge identity.
pub open spec fn ids_injective(orders: Map<ID, (GraphEdgeId, GraphPosition)>) -> bool {
    forall|x1: ID, x2: ID| orders.contains_key(x1) && orders.contains_key(x2) && #[trigger] orders[x1].0 == #[trigger] orders[x2].0 ==> x1 == x2
}

/// Liveness after the non-creating edits, by the identity each edited object maps
/// to; a later edit of the same identity overrides an earlier one.
pub open spec fn edited_alive(entries: Seq<(ID, Edit)>, remap: Map<ID, ID>) -> Map<ID, bool>
    decreases entries.len(),
{
    if entries.len() == 0 {
        Map::empty()
    } else {
        let m = edited_alive(entries.drop_last(), remap);
        let last = entries.last();
        if last.1.create is None {
            m.insert(remapped(remap, last.0), (last.1.after matches Some(l) && life_alive(l@)))
        } else {
            m
        }
    }
}

/// An endpoint of a copied edge is alive: a copied node by its own lifecycle,
/// any other by the existing node it maps to.
pub open spec fn endpoint_alive(g: GraphView, edits: Edits, remap: Map<ID, ID>, id: ID) -> bool {
    if edits.nodes@.contains_key(id) && edits.nodes@[id].create is Some {
        edits.nodes@[id].after matches Some(l) && life_alive(l@)
    } else {
        existing_alive(g, edited_alive(edits.nodes.entries@, remap), remapped(remap, id))
    }
}

/// A planned creation takes part in copy ordering: it creates an edge that stays
/// alive, both endpoints are alive, and its source is an existing node.
pub open spec fn copy_selected(g: GraphView, edits: Edits, remap: Map<ID, ID>, op: GraphOp) -> bool {
    match op {
        GraphOp::CreateEdge { id, source, target, .. } => {
            &&& edits.edges@.contains_key(id.spec_id())
            &&& (edits.edges@[id.spec_id()].after matches Some(l) && life_alive(l@))
            &&& endpoint_alive(g, edits, remap, source.spec_id())
            &&& endpoint_alive(g, edits, remap, target.spec_id())
            &&& !(edits.nodes@.contains_key(source.spec_id()) && edits.nodes@[source.spec_id()].create is Some)
        },
        _ => false,
    }
}

/// The source that a planned edge creation names.
pub open spec fn copy_source(op: GraphOp) -> ID {
    match op {
        GraphOp::CreateEdge { source, .. } => source.spec_id(),
        _ => op_object(op),
    }
}

/// Existing edge `e` is an out-edge of `x` that stays alive, with both endpoints
/// alive, once the non-creating edits apply.
pub open spec fn existing_selected(g: GraphView, edits: Edits, remap: Map<ID, ID>, x: ID, e: ID) -> bool {
    let na = edited_alive(edits.nodes.entries@, remap);
    let ea = edited_alive(edits.edges.entries@, remap);
    &&& g.edges.contains_key(e)
    &&& g.edges[e].source == x
    &&& if ea.contains_key(e) { ea[e] } else { life_alive(g.edges[e].life) }
    &&& existing_alive(g, na, g.edges[e].source)
    &&& existing_alive(g, na, g.edges[e].target)
}

/// The key an existing edge holds in a plan: the planned one, else its own.
pub open spec fn planned_key(g: GraphView, orders: Map<ID, (GraphEdgeId, GraphPosition)>, e: ID) -> Seq<u8> {
    if orders.contains_key(e) {
        orders[e].1@
    } else {
        crate::register::winner_value(g.edges[e].orders).0
    }
}

/// The planned copy `c0` (now `c1`) and an existing edge `e` (key `k0`, now `k1`)
/// keep their order by `(key, identity)`, strictly.
pub open spec fn copy_order_kept(c0: GraphOp, c1: GraphOp, e: ID, k0: Seq<u8>, k1: Seq<u8>) -> bool {
    match (c0, c1) {
        (GraphOp::CreateEdge { id, position: p0, .. }, GraphOp::CreateEdge { position: p1, .. }) => {
            &&& (lex_lt(p0@, k0) || (p0@ == k0 && id_lt(id.spec_id(), e))) ==> lex_lt(p1@, k1)
            &&& (lex_lt(k0, p0@) || (k0 == p0@ && id_lt(e, id.spec_id()))) ==> lex_lt(k1, p1@)
        },
        _ => false,
    }
}

/// No two planned keys go to the same destination.
pub open spec fn dests_unique(a: Seq<(Destination, GraphPosition)>) -> bool {
    forall|q1: int, q2: int| 0 <= q1 < a.len() && 0 <= q2 < a.len() && q1 != q2 ==> (#[trigger] a[q1]).0 != (#[trigger] a[q2]).0
}

/// The key planned for destination `d`, else `dflt`.
pub open spec fn dest_key(a: Seq<(Destination, GraphPosition)>, d: Destination, dflt: Seq<u8>) -> Seq<u8> {
    if exists|q: int| 0 <= q < a.len() && (#[trigger] a[q]).0 == d {
        a[choose|q: int| 0 <= q < a.len() && (#[trigger] a[q]).0 == d].1@
    } else {
        dflt
    }
}

proof fn lemma_dest_key_at(a: Seq<(Destination, GraphPosition)>, q: int, dflt: Seq<u8>)
    requires
        dests_unique(a),
        0 <= q < a.len(),
    ensures
        dest_key(a, a[q].0, dflt) == a[q].1@,
{
    let q2 = choose|q2: int| 0 <= q2 < a.len() && (#[trigger] a[q2]).0 == a[q].0;
}

/// Entries of a sequence go to distinct destinations.
pub open spec fn entry_dests_unique(s: Seq<CopyOrderEdge>) -> bool {
    forall|i: int, j: int| 0 <= i < s.len() && 0 <= j < s.len() && i != j ==> (#[trigger] s[i]).destination != (#[trigger] s[j]).destination
}

/// What planning one source's out-sequence owes: keys go to distinct destinations
/// of that source (its copies, or its existing out-edges), and every copy keeps its
/// order by `(key, identity)` strictly against every existing out-edge that stays.
pub open spec fn source_plan_ok(
    g: GraphView,
    edits: Edits,
    remap: Map<ID, ID>,
    orders: Map<ID, (GraphEdgeId, GraphPosition)>,
    source: ID,
    copies: Seq<CopyOrderEdge>,
    a: Seq<(Destination, GraphPosition)>,
) -> bool {
    &&& dests_unique(a)
    &&& forall|q: int| 0 <= q < a.len() ==> match (#[trigger] a[q]).0 {
        Destination::Create(_) => exists|c: int| 0 <= c < copies.len() && copies[c].destination == a[q].0,
        Destination::Existing(x) => existing_selected(g, edits, remap, source, x.spec_id()),
    }
    &&& forall|c: int, e: ID|
        0 <= c < copies.len() && #[trigger] existing_selected(g, edits, remap, source, e) ==> pair_kept(
            #[trigger] copies[c],
            e,
            planned_key(g, orders, e),
            dest_key(a, copies[c].destination, copies[c].position@),
            dest_key(a, Destination::Existing(crate::ids::edge_of(e)), planned_key(g, orders, e)),
        )
}

/// Copy entry `c` (final key `kc`) and existing edge `e` (key `ke0`, final `ke`)
/// keep their order by `(key, identity)`, strictly.
pub open spec fn pair_kept(c: CopyOrderEdge, e: ID, ke0: Seq<u8>, kc: Seq<u8>, ke: Seq<u8>) -> bool {
    &&& (lex_lt(c.position@, ke0) || (c.position@ == ke0 && id_lt(c.id.spec_id(), e))) ==> lex_lt(kc, ke)
    &&& (lex_lt(ke0, c.position@) || (ke0 == c.position@ && id_lt(e, c.id.spec_id()))) ==> lex_lt(ke, kc)
}

/// Two entries agree on identity, key and destination.
pub open spec fn same_entry(a: CopyOrderEdge, b: CopyOrderEdge) -> bool {
    a.id == b.id && a.position@ == b.position@ && a.destination == b.destination
}

/// An entry for an existing out-edge of `source` that stays: it goes to that edge,
/// at the key the plan gives the edge.
pub open spec fn existing_entry(
    g: GraphView,
    edits: Edits,
    remap: Map<ID, ID>,
    orders: Map<ID, (GraphEdgeId, GraphPosition)>,
    source: ID,
    x: CopyOrderEdge,
) -> bool {
    &&& x.destination == Destination::Existing(x.id)
    &&& existing_selected(g, edits, remap, source, x.id.spec_id())
    &&& x.position@ == planned_key(g, orders, x.id.spec_id())
}

/// The planned keys of a sequence go to distinct destinations, and each entry
/// ends at its assigned key, or at its own key where nothing was assigned.
proof fn lemma_assignment_keys(
    s: Seq<CopyOrderEdge>,
    ix: Seq<int>,
    keys: Seq<Seq<u8>>,
    moved: Seq<bool>,
    a: Seq<(Destination, GraphPosition)>,
)
    requires
        crate::copy_order::assignment_ok(s, ix, keys, moved, a),
        entry_dests_unique(s),
    ensures
        dests_unique(a),
        forall|i: int| 0 <= i < s.len() ==> dest_key(a, (#[trigger] s[i]).destination, pos(s, i)) == keys[i],
{
    assert forall|q1: int, q2: int| 0 <= q1 < a.len() && 0 <= q2 < a.len() && q1 != q2 implies (#[trigger] a[q1]).0 != (#[trigger] a[q2]).0 by {
        if q1 < q2 {
            assert(ix[q1] < ix[q2]);
        } else {
            assert(ix[q2] < ix[q1]);
        }
        assert(a[q1].0 == s[ix[q1]].destination && a[q2].0 == s[ix[q2]].destination);
    }
    assert forall|i: int| 0 <= i < s.len() implies dest_key(a, (#[trigger] s[i]).destination, pos(s, i)) == keys[i] by {
        if moved[i] {
            let k = choose|k: int| 0 <= k < ix.len() && ix[k] == i;
            assert(a[k].0 == s[ix[k]].destination);
            lemma_dest_key_at(a, k, pos(s, i));
        } else {
            assert(keys[i] == pos(s, i));
            if exists|q: int| 0 <= q < a.len() && (#[trigger] a[q]).0 == s[i].destination {
                let q = choose|q: int| 0 <= q < a.len() && (#[trigger] a[q]).0 == s[i].destination;
                assert(a[q].0 == s[ix[q]].destination);
                assert(moved[ix[q]]);
                assert(ix[q] == i);
            }
        }
    }
}

proof fn lemma_plan_source(
    g: GraphView,
    edits: Edits,
    remap: Map<ID, ID>,
    orders: Map<ID, (GraphEdgeId, GraphPosition)>,
    source: ID,
    copies: Seq<CopyOrderEdge>,
    sq: Seq<CopyOrderEdge>,
    sorted: Seq<CopyOrderEdge>,
    a: Seq<(Destination, GraphPosition)>,
    out: Seq<GraphEdgeId>,
)
    requires
        copies.len() <= sq.len(),
        forall|q: int| 0 <= q < copies.len() ==> (#[trigger] copies[q]).destination is Create,
        forall|q: int| 0 <= q < copies.len() ==> same_entry(#[trigger] sq[q], copies[q]),
        forall|q: int| copies.len() <= q < sq.len() ==> existing_entry(g, edits, remap, orders, source, #[trigger] sq[q]),
        entry_dests_unique(sq),
        forall|e: ID| #[trigger] edge_ids(out).contains(e) <==> g.edges.contains_key(e) && g.edges[e].source == source,
        forall|t: int| 0 <= t < out.len() && existing_selected(g, edits, remap, source, (#[trigger] out[t]).spec_id()) ==> exists|q: int|
            copies.len() <= q < sq.len() && (#[trigger] sq[q]).id == out[t],
        sorted.len() == sq.len(),
        forall|a: int, b: int| 0 <= a < b < sorted.len() ==> !key_lt(#[trigger] sorted[b], #[trigger] sorted[a]),
        forall|t: int| 0 <= t < sq.len() ==> #[trigger] sorted.contains(sq[t]),
        exists|perm: Seq<int>| #[trigger] rearranges(sq, sorted, perm),
        exists|ix: Seq<int>, keys: Seq<Seq<u8>>, moved: Seq<bool>| #[trigger] crate::copy_order::assignment_ok(sorted, ix, keys, moved, a),
    ensures
        source_plan_ok(g, edits, remap, orders, source, copies, a),
{
    let nc = copies.len();
    let perm = choose|perm: Seq<int>| #[trigger] rearranges(sq, sorted, perm);
    let (ix, keys, moved) = choose|ix: Seq<int>, keys: Seq<Seq<u8>>, moved: Seq<bool>| #[trigger] crate::copy_order::assignment_ok(sorted, ix, keys, moved, a);
    assert forall|i: int, j: int| 0 <= i < sorted.len() && 0 <= j < sorted.len() && i != j implies (#[trigger] sorted[i]).destination != (#[trigger] sorted[j]).destination by {
        assert(sorted[i] == sq[perm[i]] && sorted[j] == sq[perm[j]]);
        assert(perm[i] != perm[j]);
    }
    lemma_assignment_keys(sorted, ix, keys, moved, a);
    assert forall|q: int| 0 <= q < a.len() implies match (#[trigger] a[q]).0 {
        Destination::Create(_) => exists|c: int| 0 <= c < copies.len() && copies[c].destination == a[q].0,
        Destination::Existing(x) => existing_selected(g, edits, remap, source, x.spec_id()),
    } by {
        let i = ix[q];
        assert(a[q].0 == sorted[i].destination);
        let t = perm[i];
        assert(sorted[i] == sq[t]);
        if t < nc {
            assert(same_entry(sq[t], copies[t]));
        } else {
            assert(existing_entry(g, edits, remap, orders, source, sq[t]));
        }
    }
    assert forall|c: int, e: ID| 0 <= c < copies.len() && #[trigger] existing_selected(g, edits, remap, source, e) implies pair_kept(
        #[trigger] copies[c],
        e,
        planned_key(g, orders, e),
        dest_key(a, copies[c].destination, copies[c].position@),
        dest_key(a, Destination::Existing(crate::ids::edge_of(e)), planned_key(g, orders, e)),
    ) by {
        assert(edge_ids(out).contains(e));
        let t = choose|t: int| 0 <= t < edge_ids(out).len() && edge_ids(out)[t] == e;
        assert(out[t].spec_id() == e);
        let qe = choose|q: int| nc <= q < sq.len() && (#[trigger] sq[q]).id == out[t];
        assert(existing_entry(g, edits, remap, orders, source, sq[qe]));
        assert(out[t] == crate::ids::edge_of(e));
        assert(same_entry(sq[c], copies[c]));
        assert(sorted.contains(sq[c]));
        assert(sorted.contains(sq[qe]));
        let ic = choose|i: int| 0 <= i < sorted.len() && sorted[i] == sq[c];
        let ie = choose|i: int| 0 <= i < sorted.len() && sorted[i] == sq[qe];
        assert(sorted[ic].destination is Create);
        assert(sorted[ie].destination is Existing);
        assert(ic != ie);
        assert(dest_key(a, sorted[ic].destination, pos(sorted, ic)) == keys[ic]);
        assert(dest_key(a, sorted[ie].destination, pos(sorted, ie)) == keys[ie]);
        if ic < ie {
            assert(lex_lt(keys[ic], keys[ie]) || (keys[ic] == keys[ie] && moved[ic] == false && moved[ie] == false
                && (sorted[ic].destination is Create <==> sorted[ie].destination is Create)));
            assert(!key_lt(sorted[ie], sorted[ic]));
        } else {
            assert(lex_lt(keys[ie], keys[ic]) || (keys[ie] == keys[ic] && moved[ie] == false && moved[ic] == false
                && (sorted[ie].destination is Create <==> sorted[ic].destination is Create)));
            assert(!key_lt(sorted[ic], sorted[ie]));
        }
    }
}

/// The key a planned edge creation carries.
pub open spec fn create_key(op: GraphOp) -> Seq<u8> {
    match op {
        GraphOp::CreateEdge { position, .. } => position@,
        _ => Seq::empty(),
    }
}

/// A listed copy of source `x`: it goes to creation `k < index` of `c0`, a selected
/// edge creation whose source maps to `x`, with that creation's identity and key.
pub open spec fn copy_entry(g: GraphView, edits: Edits, remap: Map<ID, ID>, c0: Seq<GraphOp>, x: ID, item: CopyOrderEdge, index: int) -> bool {
    match item.destination {
        Destination::Create(k) => {
            &&& k < index
            &&& k < c0.len()
            &&& copy_selected(g, edits, remap, c0[k as int])
            &&& remapped(remap, copy_source(c0[k as int])) == x
            &&& c0[k as int] matches GraphOp::CreateEdge { id, position, .. } && item.id == id && item.position@ == position@
        },
        Destination::Existing(_) => false,
    }
}

/// Creation `k` is listed under source `x`.
pub open spec fn copy_listed(sm: Map<ID, Vec<CopyOrderEdge>>, x: ID, k: int) -> bool {
    sm.contains_key(x) && exists|q: int| 0 <= q < sm[x]@.len() && (#[trigger] sm[x]@[q]).destination == Destination::Create(k as usize)
}

/// What the lists of copies by source hold once the first `index` creations are seen.
pub open spec fn sources_inv(
    g: GraphView,
    edits: Edits,
    remap: Map<ID, ID>,
    c0: Seq<GraphOp>,
    sm: Map<ID, Vec<CopyOrderEdge>>,
    index: int,
    room: bool,
    lim: int,
) -> bool {
    &&& forall|x: ID| #[trigger] sm.contains_key(x) ==> 0 < sm[x]@.len() <= index
    &&& room ==> forall|x: ID, q: int| sm.contains_key(x) && 0 <= q < sm[x]@.len() ==> (#[trigger] sm[x]@[q]).position@.len() + lim
        <= crate::position::MAX_GRAPH_POSITION_BYTES
    &&& forall|x: ID, q: int| sm.contains_key(x) && 0 <= q < sm[x]@.len() ==> copy_entry(g, edits, remap, c0, x, #[trigger] sm[x]@[q], index)
    &&& forall|k: int| 0 <= k < index && #[trigger] copy_selected(g, edits, remap, c0[k]) ==> copy_listed(sm, remapped(remap, copy_source(c0[k])), k)
    &&& forall|x1: ID, q1: int, x2: ID, q2: int|
        sm.contains_key(x1) && 0 <= q1 < sm[x1]@.len() && sm.contains_key(x2) && 0 <= q2 < sm[x2]@.len() && (#[trigger] sm[x1]@[q1]).destination
            == (#[trigger] sm[x2]@[q2]).destination ==> x1 == x2 && q1 == q2
}

proof fn lemma_sources_skip(
    g: GraphView,
    edits: Edits,
    remap: Map<ID, ID>,
    c0: Seq<GraphOp>,
    sm: Map<ID, Vec<CopyOrderEdge>>,
    index: int,
    room: bool,
    lim: int,
)
    requires
        0 <= index < c0.len(),
        sources_inv(g, edits, remap, c0, sm, index, room, lim),
        !copy_selected(g, edits, remap, c0[index]),
    ensures
        sources_inv(g, edits, remap, c0, sm, index + 1, room, lim),
{
    assert forall|x: ID, q: int| sm.contains_key(x) && 0 <= q < sm[x]@.len() implies copy_entry(g, edits, remap, c0, x, #[trigger] sm[x]@[q], index + 1) by {
        assert(copy_entry(g, edits, remap, c0, x, sm[x]@[q], index));
    }
}

proof fn lemma_sources_step(
    g: GraphView,
    edits: Edits,
    remap: Map<ID, ID>,
    c0: Seq<GraphOp>,
    sm: Map<ID, Vec<CopyOrderEdge>>,
    sm2: Map<ID, Vec<CopyOrderEdge>>,
    key: ID,
    l0: Seq<CopyOrderEdge>,
    item: CopyOrderEdge,
    index: int,
    room: bool,
    lim: int,
)
    requires
        0 <= index < c0.len(),
        c0.len() <= usize::MAX,
        sources_inv(g, edits, remap, c0, sm, index, room, lim),
        copy_selected(g, edits, remap, c0[index]),
        key == remapped(remap, copy_source(c0[index])),
        item.destination == Destination::Create(index as usize),
        c0[index] matches GraphOp::CreateEdge { id, position, .. } && item.id == id && item.position@ == position@,
        room ==> item.position@.len() + lim <= crate::position::MAX_GRAPH_POSITION_BYTES,
        sm.contains_key(key) ==> l0 == sm[key]@,
        !sm.contains_key(key) ==> l0.len() == 0,
        sm2.contains_key(key),
        sm2[key]@ == l0.push(item),
        forall|x: ID| x != key ==> (#[trigger] sm2.contains_key(x) <==> sm.contains_key(x)),
        forall|x: ID| x != key && sm.contains_key(x) ==> #[trigger] sm2[x] == sm[x],
    ensures
        sources_inv(g, edits, remap, c0, sm2, index + 1, room, lim),
{
    let n = l0.len();
    assert forall|x: ID| #[trigger] sm2.contains_key(x) implies 0 < sm2[x]@.len() <= index + 1 by {
        if x != key {
            assert(sm2[x] == sm[x]);
        }
    }
    if room {
        assert forall|x: ID, q: int| sm2.contains_key(x) && 0 <= q < sm2[x]@.len() implies (#[trigger] sm2[x]@[q]).position@.len() + lim
            <= crate::position::MAX_GRAPH_POSITION_BYTES by {
            if x != key {
                assert(sm2[x] == sm[x]);
            } else if q < n {
                assert(sm2[x]@[q] == l0[q]);
                assert(sm[x]@[q] == l0[q]);
            }
        }
    }
    assert forall|x: ID, q: int| sm2.contains_key(x) && 0 <= q < sm2[x]@.len() implies copy_entry(g, edits, remap, c0, x, #[trigger] sm2[x]@[q], index + 1) by {
        if x != key {
            assert(sm2[x] == sm[x]);
            assert(copy_entry(g, edits, remap, c0, x, sm[x]@[q], index));
        } else if q < n {
            assert(sm2[x]@[q] == l0[q]);
            assert(sm[x]@[q] == l0[q]);
            assert(copy_entry(g, edits, remap, c0, x, sm[x]@[q], index));
        } else {
            assert(sm2[x]@[q] == item);
        }
    }
    assert forall|k: int| 0 <= k < index + 1 && #[trigger] copy_selected(g, edits, remap, c0[k]) implies copy_listed(sm2, remapped(remap, copy_source(c0[k])), k) by {
        let x = remapped(remap, copy_source(c0[k]));
        if k == index {
            assert(sm2[key]@[n as int] == item);
        } else {
            assert(copy_listed(sm, x, k));
            let q = choose|q: int| 0 <= q < sm[x]@.len() && (#[trigger] sm[x]@[q]).destination == Destination::Create(k as usize);
            if x != key {
                assert(sm2[x] == sm[x]);
            } else {
                assert(sm2[x]@[q] == l0[q]);
            }
        }
    }
    assert forall|x1: ID, q1: int, x2: ID, q2: int|
        sm2.contains_key(x1) && 0 <= q1 < sm2[x1]@.len() && sm2.contains_key(x2) && 0 <= q2 < sm2[x2]@.len() && (#[trigger] sm2[x1]@[q1]).destination
            == (#[trigger] sm2[x2]@[q2]).destination implies x1 == x2 && q1 == q2 by {
        let new1 = x1 == key && q1 == n;
        let new2 = x2 == key && q2 == n;
        if !new1 {
            if x1 != key {
                assert(sm2[x1] == sm[x1]);
            } else {
                assert(sm.contains_key(key));
                assert(sm2[x1]@[q1] == l0[q1]);
            }
            assert(sm.contains_key(x1));
            assert(sm2[x1]@[q1] == sm[x1]@[q1]);
            assert(copy_entry(g, edits, remap, c0, x1, sm[x1]@[q1], index));
        }
        if !new2 {
            if x2 != key {
                assert(sm2[x2] == sm[x2]);
            } else {
                assert(sm.contains_key(key));
                assert(sm2[x2]@[q2] == l0[q2]);
            }
            assert(sm.contains_key(x2));
            assert(sm2[x2]@[q2] == sm[x2]@[q2]);
            assert(copy_entry(g, edits, remap, c0, x2, sm[x2]@[q2], index));
        }
        if new1 && !new2 {
            assert(sm2[x1]@[q1] == item);
        } else if new2 && !new1 {
            assert(sm2[x2]@[q2] == item);
        } else if !new1 && !new2 {
            assert(sm2[x1]@[q1] == sm[x1]@[q1]);
            assert(sm2[x2]@[q2] == sm[x2]@[q2]);
        }
    }
}

/// Entry `entry` (a source and its copies) owns destination `d`: one of its copies
/// goes there, or `d` is an existing out-edge of the source that stays.
pub open spec fn owns(g: GraphView, edits: Edits, remap: Map<ID, ID>, entry: (ID, Vec<CopyOrderEdge>), d: Destination) -> bool {
    match d {
        Destination::Create(_) => exists|c: int| 0 <= c < entry.1@.len() && (#[trigger] entry.1@[c]).destination == d,
        Destination::Existing(x) => existing_selected(g, edits, remap, entry.0, x.spec_id()),
    }
}

/// Within the keys `a`, the copies of `entry` keep their order against every
/// existing out-edge of its source that stays.
pub open spec fn source_kept(
    g: GraphView,
    edits: Edits,
    remap: Map<ID, ID>,
    orders: Map<ID, (GraphEdgeId, GraphPosition)>,
    entry: (ID, Vec<CopyOrderEdge>),
    a: Seq<(Destination, GraphPosition)>,
) -> bool {
    forall|c: int, e: ID|
        0 <= c < entry.1@.len() && #[trigger] existing_selected(g, edits, remap, entry.0, e) ==> pair_kept(
            #[trigger] entry.1@[c],
            e,
            planned_key(g, orders, e),
            dest_key(a, entry.1@[c].destination, entry.1@[c].position@),
            dest_key(a, Destination::Existing(crate::ids::edge_of(e)), planned_key(g, orders, e)),
        )
}

/// The sources listed in `entries`, with distinct keys, as in `smap`.
pub open spec fn entries_of(smap: Map<ID, Vec<CopyOrderEdge>>, entries: Seq<(ID, Vec<CopyOrderEdge>)>) -> bool {
    &&& forall|t: int| 0 <= t < entries.len() ==> smap.contains_key((#[trigger] entries[t]).0) && smap[entries[t].0] == entries[t].1
    &&& forall|t1: int, t2: int| 0 <= t1 < entries.len() && 0 <= t2 < entries.len() && t1 != t2 ==> (#[trigger] entries[t1]).0 != (#[trigger] entries[t2]).0
}

/// Some entry among the first `n` owns destination `d`.
pub open spec fn owned_within(g: GraphView, edits: Edits, remap: Map<ID, ID>, entries: Seq<(ID, Vec<CopyOrderEdge>)>, n: int, d: Destination) -> bool {
    exists|t: int| 0 <= t < n && #[trigger] owns(g, edits, remap, entries[t], d)
}

proof fn lemma_owners_disjoint(
    g: GraphView,
    edits: Edits,
    remap: Map<ID, ID>,
    c0: Seq<GraphOp>,
    smap: Map<ID, Vec<CopyOrderEdge>>,
    entries: Seq<(ID, Vec<CopyOrderEdge>)>,
    room: bool,
    lim: int,
    t1: int,
    t2: int,
    d: Destination,
)
    requires
        sources_inv(g, edits, remap, c0, smap, c0.len() as int, room, lim),
        entries_of(smap, entries),
        0 <= t1 < entries.len(),
        0 <= t2 < entries.len(),
        t1 != t2,
    ensures
        !(owns(g, edits, remap, entries[t1], d) && owns(g, edits, remap, entries[t2], d)),
{
    let x1 = entries[t1].0;
    let x2 = entries[t2].0;
    assert(x1 != x2);
    if owns(g, edits, remap, entries[t1], d) && owns(g, edits, remap, entries[t2], d) {
        match d {
            Destination::Create(_) => {
                let c1 = choose|c: int| 0 <= c < entries[t1].1@.len() && (#[trigger] entries[t1].1@[c]).destination == d;
                let c2 = choose|c: int| 0 <= c < entries[t2].1@.len() && (#[trigger] entries[t2].1@[c]).destination == d;
                assert(smap[x1]@[c1] == entries[t1].1@[c1]);
                assert(smap[x2]@[c2] == entries[t2].1@[c2]);
            },
            Destination::Existing(x) => {},
        }
    }
}

proof fn lemma_dest_key_extend(
    base: Seq<(Destination, GraphPosition)>,
    a: Seq<(Destination, GraphPosition)>,
    new: Seq<(Destination, GraphPosition)>,
    d: Destination,
    dflt: Seq<u8>,
)
    requires
        new.len() == base.len() + a.len(),
        forall|i: int| 0 <= i < base.len() ==> new[i] == base[i],
        forall|q: int| base.len() <= q < new.len() ==> (#[trigger] new[q]).0 == a[q - base.len()].0 && new[q].1@ == a[q - base.len()].1@,
        dests_unique(new),
    ensures
        (forall|i: int| 0 <= i < a.len() ==> (#[trigger] a[i]).0 != d) ==> dest_key(new, d, dflt) == dest_key(base, d, dflt),
        (forall|i: int| 0 <= i < base.len() ==> (#[trigger] base[i]).0 != d) ==> dest_key(new, d, dflt) == dest_key(a, d, dflt),
{
    assert forall|q1: int, q2: int| 0 <= q1 < base.len() && 0 <= q2 < base.len() && q1 != q2 implies (#[trigger] base[q1]).0 != (#[trigger] base[q2]).0 by {
        assert(new[q1] == base[q1] && new[q2] == base[q2]);
    }
    assert forall|q1: int, q2: int| 0 <= q1 < a.len() && 0 <= q2 < a.len() && q1 != q2 implies (#[trigger] a[q1]).0 != (#[trigger] a[q2]).0 by {
        let n1 = base.len() + q1;
        let n2 = base.len() + q2;
        assert(new[n1].0 == a[n1 - base.len()].0 && new[n2].0 == a[n2 - base.len()].0);
    }
    if forall|i: int| 0 <= i < a.len() ==> (#[trigger] a[i]).0 != d {
        if exists|q: int| 0 <= q < base.len() && (#[trigger] base[q]).0 == d {
            let q = choose|q: int| 0 <= q < base.len() && (#[trigger] base[q]).0 == d;
            assert(new[q] == base[q]);
            lemma_dest_key_at(new, q, dflt);
            lemma_dest_key_at(base, q, dflt);
        } else {
            assert forall|q: int| 0 <= q < new.len() implies (#[trigger] new[q]).0 != d by {
                if q < base.len() {
                    assert(new[q] == base[q]);
                } else {
                    assert(new[q].0 == a[q - base.len()].0);
                }
            }
        }
    }
    if forall|i: int| 0 <= i < base.len() ==> (#[trigger] base[i]).0 != d {
        if exists|q: int| 0 <= q < a.len() && (#[trigger] a[q]).0 == d {
            let q = choose|q: int| 0 <= q < a.len() && (#[trigger] a[q]).0 == d;
            let nq = base.len() + q;
            assert(new[nq].0 == a[nq - base.len()].0);
            lemma_dest_key_at(new, nq, dflt);
            lemma_dest_key_at(a, q, dflt);
        } else {
            assert forall|q: int| 0 <= q < new.len() implies (#[trigger] new[q]).0 != d by {
                if q < base.len() {
                    assert(new[q] == base[q]);
                } else {
                    assert(new[q].0 == a[q - base.len()].0);
                }
            }
        }
    }
}

proof fn lemma_entries_step(
    g: GraphView,
    edits: Edits,
    remap: Map<ID, ID>,
    orders: Map<ID, (GraphEdgeId, GraphPosition)>,
    c0: Seq<GraphOp>,
    smap: Map<ID, Vec<CopyOrderEdge>>,
    entries: Seq<(ID, Vec<CopyOrderEdge>)>,
    room: bool,
    lim: int,
    s: int,
    base: Seq<(Destination, GraphPosition)>,
    a: Seq<(Destination, GraphPosition)>,
    new: Seq<(Destination, GraphPosition)>,
)
    requires
        sources_inv(g, edits, remap, c0, smap, c0.len() as int, room, lim),
        entries_of(smap, entries),
        0 <= s < entries.len(),
        dests_unique(base),
        forall|q: int| 0 <= q < base.len() ==> owned_within(g, edits, remap, entries, s, (#[trigger] base[q]).0),
        forall|t: int| 0 <= t < s ==> #[trigger] source_kept(g, edits, remap, orders, entries[t], base),
        source_plan_ok(g, edits, remap, orders, entries[s].0, entries[s].1@, a),
        new.len() == base.len() + a.len(),
        forall|i: int| 0 <= i < base.len() ==> new[i] == base[i],
        forall|q: int| base.len() <= q < new.len() ==> (#[trigger] new[q]).0 == a[q - base.len()].0 && new[q].1@ == a[q - base.len()].1@,
    ensures
        dests_unique(new),
        forall|q: int| 0 <= q < new.len() ==> owned_within(g, edits, remap, entries, s + 1, (#[trigger] new[q]).0),
        forall|t: int| 0 <= t < s + 1 ==> #[trigger] source_kept(g, edits, remap, orders, entries[t], new),
{
    // every key of `a` belongs to entry `s`
    assert forall|i: int| 0 <= i < a.len() implies #[trigger] owns(g, edits, remap, entries[s], a[i].0) by {
        assert(match a[i].0 {
            Destination::Create(_) => exists|c: int| 0 <= c < entries[s].1@.len() && entries[s].1@[c].destination == a[i].0,
            Destination::Existing(x) => existing_selected(g, edits, remap, entries[s].0, x.spec_id()),
        });
        if a[i].0 is Create {
            let c = choose|c: int| 0 <= c < entries[s].1@.len() && entries[s].1@[c].destination == a[i].0;
            assert(entries[s].1@[c].destination == a[i].0);
        }
    }
    assert forall|q1: int, q2: int| 0 <= q1 < new.len() && 0 <= q2 < new.len() && q1 != q2 implies (#[trigger] new[q1]).0 != (#[trigger] new[q2]).0 by {
        let b = base.len() as int;
        if q1 < b && q2 < b {
            assert(new[q1] == base[q1] && new[q2] == base[q2]);
        } else if q1 >= b && q2 >= b {
            assert(new[q1].0 == a[q1 - b].0 && new[q2].0 == a[q2 - b].0);
        } else {
            let (qb, qn) = if q1 < b { (q1, q2) } else { (q2, q1) };
            let qa = qn - b;
            assert(new[qb] == base[qb]);
            assert(new[qn].0 == a[qa].0);
            if base[qb].0 == a[qa].0 {
                let t = choose|t: int| 0 <= t < s && #[trigger] owns(g, edits, remap, entries[t], base[qb].0);
                assert(owns(g, edits, remap, entries[s], a[qa].0));
                lemma_owners_disjoint(g, edits, remap, c0, smap, entries, room, lim, t, s, a[qa].0);
            }
        }
    }
    assert forall|q: int| 0 <= q < new.len() implies owned_within(g, edits, remap, entries, s + 1, (#[trigger] new[q]).0) by {
        if q < base.len() {
            assert(new[q] == base[q]);
            let t = choose|t: int| 0 <= t < s && #[trigger] owns(g, edits, remap, entries[t], base[q].0);
            assert(owns(g, edits, remap, entries[t], new[q].0));
        } else {
            assert(new[q].0 == a[q - base.len()].0);
            assert(owns(g, edits, remap, entries[s], new[q].0));
        }
    }
    assert forall|t: int| 0 <= t < s + 1 implies #[trigger] source_kept(g, edits, remap, orders, entries[t], new) by {
        assert forall|c: int, e: ID|
            0 <= c < entries[t].1@.len() && #[trigger] existing_selected(g, edits, remap, entries[t].0, e) implies pair_kept(
                #[trigger] entries[t].1@[c],
                e,
                planned_key(g, orders, e),
                dest_key(new, entries[t].1@[c].destination, entries[t].1@[c].position@),
                dest_key(new, Destination::Existing(crate::ids::edge_of(e)), planned_key(g, orders, e)),
            ) by {
            let dc = entries[t].1@[c].destination;
            let de = Destination::Existing(crate::ids::edge_of(e));
            assert(owns(g, edits, remap, entries[t], dc));
            assert(crate::ids::edge_of(e).spec_id() == e);
            assert(owns(g, edits, remap, entries[t], de));
            if t < s {
                assert forall|i: int| 0 <= i < a.len() implies (#[trigger] a[i]).0 != dc by {
                    if a[i].0 == dc {
                        lemma_owners_disjoint(g, edits, remap, c0, smap, entries, room, lim, t, s, dc);
                    }
                }
                assert forall|i: int| 0 <= i < a.len() implies (#[trigger] a[i]).0 != de by {
                    if a[i].0 == de {
                        lemma_owners_disjoint(g, edits, remap, c0, smap, entries, room, lim, t, s, de);
                    }
                }
                lemma_dest_key_extend(base, a, new, dc, entries[t].1@[c].position@);
                lemma_dest_key_extend(base, a, new, de, planned_key(g, orders, e));
                assert(source_kept(g, edits, remap, orders, entries[t], base));
            } else {
                assert forall|i: int| 0 <= i < base.len() implies (#[trigger] base[i]).0 != dc by {
                    if base[i].0 == dc {
                        let t2 = choose|t2: int| 0 <= t2 < s && #[trigger] owns(g, edits, remap, entries[t2], base[i].0);
                        lemma_owners_disjoint(g, edits, remap, c0, smap, entries, room, lim, t2, s, dc);
                    }
                }
                assert forall|i: int| 0 <= i < base.len() implies (#[trigger] base[i]).0 != de by {
                    if base[i].0 == de {
                        let t2 = choose|t2: int| 0 <= t2 < s && #[trigger] owns(g, edits, remap, entries[t2], base[i].0);
                        lemma_owners_disjoint(g, edits, remap, c0, smap, entries, room, lim, t2, s, de);
                    }
                }
                lemma_dest_key_extend(base, a, new, dc, entries[t].1@[c].position@);
                lemma_dest_key_extend(base, a, new, de, planned_key(g, orders, e));
            }
        }
    }
}

proof fn lemma_assignments_complete(
    g: GraphView,
    edits: Edits,
    remap: Map<ID, ID>,
    c0: Seq<GraphOp>,
    smap: Map<ID, Vec<CopyOrderEdge>>,
    entries: Seq<(ID, Vec<CopyOrderEdge>)>,
    room: bool,
    lim: int,
    a: Seq<(Destination, GraphPosition)>,
)
    requires
        sources_inv(g, edits, remap, c0, smap, c0.len() as int, room, lim),
        entries_of(smap, entries),
        forall|q: int| 0 <= q < a.len() ==> owned_within(g, edits, remap, entries, entries.len() as int, (#[trigger] a[q]).0),
    ensures
        forall|p: int| 0 <= p < a.len() ==> ((#[trigger] a[p]).0 matches Destination::Create(k) ==> k < c0.len() && c0[k as int] is CreateEdge),
{
    assert forall|p: int| 0 <= p < a.len() implies ((#[trigger] a[p]).0 matches Destination::Create(k) ==> k < c0.len() && c0[k as int] is CreateEdge) by {
        if a[p].0 is Create {
            let t = choose|t: int| 0 <= t < entries.len() && #[trigger] owns(g, edits, remap, entries[t], a[p].0);
            let c = choose|c: int| 0 <= c < entries[t].1@.len() && (#[trigger] entries[t].1@[c]).destination == a[p].0;
            let x = entries[t].0;
            assert(smap[x]@[c] == entries[t].1@[c]);
            assert(copy_entry(g, edits, remap, c0, x, smap[x]@[c], c0.len() as int));
        }
    }
}

proof fn lemma_dest_key_take(a: Seq<(Destination, GraphPosition)>, q: int)
    requires
        dests_unique(a),
        0 <= q < a.len(),
    ensures
        forall|d: Destination, dflt: Seq<u8>| #[trigger] dest_key(a.take(q + 1), d, dflt) == if a[q].0 == d {
            a[q].1@
        } else {
            dest_key(a.take(q), d, dflt)
        },
{
    let b = a.take(q);
    let n = a.take(q + 1);
    assert forall|d: Destination, dflt: Seq<u8>| #[trigger] dest_key(n, d, dflt) == if a[q].0 == d {
        a[q].1@
    } else {
        dest_key(b, d, dflt)
    } by {
        assert forall|q1: int, q2: int| 0 <= q1 < n.len() && 0 <= q2 < n.len() && q1 != q2 implies (#[trigger] n[q1]).0 != (#[trigger] n[q2]).0 by {
            assert(n[q1] == a[q1] && n[q2] == a[q2]);
        }
        assert forall|q1: int, q2: int| 0 <= q1 < b.len() && 0 <= q2 < b.len() && q1 != q2 implies (#[trigger] b[q1]).0 != (#[trigger] b[q2]).0 by {
            assert(b[q1] == a[q1] && b[q2] == a[q2]);
        }
        if a[q].0 == d {
            assert(n[q] == a[q]);
            lemma_dest_key_at(n, q, dflt);
        } else if exists|p: int| 0 <= p < b.len() && (#[trigger] b[p]).0 == d {
            let p = choose|p: int| 0 <= p < b.len() && (#[trigger] b[p]).0 == d;
            assert(n[p] == b[p]);
            lemma_dest_key_at(n, p, dflt);
            lemma_dest_key_at(b, p, dflt);
        } else {
            assert forall|p: int| 0 <= p < n.len() implies (#[trigger] n[p]).0 != d by {
                if p < q {
                    assert(n[p] == b[p]);
                } else {
                    assert(n[p] == a[q]);
                }
            }
        }
    }
}

proof fn lemma_plan_final(
    g: GraphView,
    edits: Edits,
    remap: Map<ID, ID>,
    orders0: Map<ID, (GraphEdgeId, GraphPosition)>,
    orders_f: Map<ID, (GraphEdgeId, GraphPosition)>,
    c0: Seq<GraphOp>,
    cf: Seq<GraphOp>,
    smap: Map<ID, Vec<CopyOrderEdge>>,
    entries: Seq<(ID, Vec<CopyOrderEdge>)>,
    room: bool,
    lim: int,
    a: Seq<(Destination, GraphPosition)>,
)
    requires
        c0.len() <= usize::MAX,
        sources_inv(g, edits, remap, c0, smap, c0.len() as int, room, lim),
        entries_of(smap, entries),
        forall|x: ID| #[trigger] smap.contains_key(x) ==> exists|t: int| 0 <= t < entries.len() && entries[t].0 == x,
        forall|t: int| 0 <= t < entries.len() ==> #[trigger] source_kept(g, edits, remap, orders0, entries[t], a),
        cf.len() == c0.len(),
        forall|k: int| 0 <= k < cf.len() ==> (#[trigger] cf[k] is CreateEdge <==> c0[k] is CreateEdge),
        forall|k: int| 0 <= k < cf.len() && c0[k] is CreateEdge ==> #[trigger] create_key(cf[k]) == dest_key(
            a,
            Destination::Create(k as usize),
            create_key(c0[k]),
        ),
        forall|e: ID| #[trigger] planned_key(g, orders_f, e) == dest_key(
            a,
            Destination::Existing(crate::ids::edge_of(e)),
            planned_key(g, orders0, e),
        ),
        forall|q: int| 0 <= q < a.len() ==> owned_within(g, edits, remap, entries, entries.len() as int, (#[trigger] a[q]).0),
    ensures
        forall|k: int| 0 <= k < c0.len() && !copy_selected(g, edits, remap, #[trigger] c0[k]) ==> create_key(cf[k]) == create_key(c0[k]),
        forall|e: ID|
            (forall|k: int| 0 <= k < c0.len() ==> !(#[trigger] copy_selected(g, edits, remap, c0[k]) && existing_selected(g, edits, remap, remapped(remap, copy_source(c0[k])), e)))
                ==> #[trigger] planned_key(g, orders_f, e) == planned_key(g, orders0, e),
        forall|k: int, e: ID|
            0 <= k < c0.len() && #[trigger] copy_selected(g, edits, remap, c0[k])
                && #[trigger] existing_selected(g, edits, remap, remapped(remap, copy_source(c0[k])), e)
                ==> copy_order_kept(c0[k], cf[k], e, planned_key(g, orders0, e), planned_key(g, orders_f, e)),
{
    assert forall|k: int, e: ID|
        0 <= k < c0.len() && #[trigger] copy_selected(g, edits, remap, c0[k])
            && #[trigger] existing_selected(g, edits, remap, remapped(remap, copy_source(c0[k])), e)
            implies copy_order_kept(c0[k], cf[k], e, planned_key(g, orders0, e), planned_key(g, orders_f, e)) by {
        let x = remapped(remap, copy_source(c0[k]));
        assert(copy_listed(smap, x, k));
        let q = choose|q: int| 0 <= q < smap[x]@.len() && (#[trigger] smap[x]@[q]).destination == Destination::Create(k as usize);
        let t = choose|t: int| 0 <= t < entries.len() && entries[t].0 == x;
        assert(smap[entries[t].0] == entries[t].1);
        let item = smap[x]@[q];
        assert(entries[t].1@[q] == item);
        assert(copy_entry(g, edits, remap, c0, x, item, c0.len() as int));
        assert(source_kept(g, edits, remap, orders0, entries[t], a));
        assert(pair_kept(
            entries[t].1@[q],
            e,
            planned_key(g, orders0, e),
            dest_key(a, entries[t].1@[q].destination, entries[t].1@[q].position@),
            dest_key(a, Destination::Existing(crate::ids::edge_of(e)), planned_key(g, orders0, e)),
        ));
        assert(cf[k] is CreateEdge);
        assert(create_key(cf[k]) == dest_key(a, Destination::Create(k as usize), create_key(c0[k])));
        assert(planned_key(g, orders_f, e) == dest_key(a, Destination::Existing(crate::ids::edge_of(e)), planned_key(g, orders0, e)));
    }
    assert forall|k: int| 0 <= k < c0.len() && !copy_selected(g, edits, remap, #[trigger] c0[k]) implies create_key(cf[k]) == create_key(c0[k]) by {
        if c0[k] is CreateEdge {
            assert(create_key(cf[k]) == dest_key(a, Destination::Create(k as usize), create_key(c0[k])));
            if exists|q: int| 0 <= q < a.len() && (#[trigger] a[q]).0 == Destination::Create(k as usize) {
                let q = choose|q: int| 0 <= q < a.len() && (#[trigger] a[q]).0 == Destination::Create(k as usize);
                assert(owned_within(g, edits, remap, entries, entries.len() as int, a[q].0));
                let t = choose|t: int| 0 <= t < entries.len() && #[trigger] owns(g, edits, remap, entries[t], a[q].0);
                let c = choose|c: int| 0 <= c < entries[t].1@.len() && (#[trigger] entries[t].1@[c]).destination == a[q].0;
                let x = entries[t].0;
                assert(smap[x]@[c] == entries[t].1@[c]);
                assert(copy_entry(g, edits, remap, c0, x, smap[x]@[c], c0.len() as int));
            }
        } else {
            assert(!(cf[k] is CreateEdge));
        }
    }
    assert forall|e: ID|
        (forall|k: int| 0 <= k < c0.len() ==> !(#[trigger] copy_selected(g, edits, remap, c0[k]) && existing_selected(g, edits, remap, remapped(remap, copy_source(c0[k])), e)))
            implies #[trigger] planned_key(g, orders_f, e) == planned_key(g, orders0, e) by {
        let d = Destination::Existing(crate::ids::edge_of(e));
        if exists|q: int| 0 <= q < a.len() && (#[trigger] a[q]).0 == d {
            let q = choose|q: int| 0 <= q < a.len() && (#[trigger] a[q]).0 == d;
            assert(owned_within(g, edits, remap, entries, entries.len() as int, a[q].0));
            let t = choose|t: int| 0 <= t < entries.len() && #[trigger] owns(g, edits, remap, entries[t], a[q].0);
            let x = entries[t].0;
            assert(crate::ids::edge_of(e).spec_id() == e);
            assert(existing_selected(g, edits, remap, x, e));
            assert(smap.contains_key(x));
            assert(smap[x]@.len() > 0);
            assert(copy_entry(g, edits, remap, c0, x, smap[x]@[0], c0.len() as int));
            let k = smap[x]@[0].destination->Create_0 as int;
            assert(copy_selected(g, edits, remap, c0[k]));
            assert(false);
        }
    }
}

impl GraphState {
    /// Append an order write for every planned entry whose key differs from the
    /// key its edge holds here, in ascending order of the entries.
    fn push_order_writes(&self, orders: &IdMap<(GraphEdgeId, GraphPosition)>, result: &mut Vec<GraphOp>)
        requires
            self.wf(),
            orders.wf(),
        ensures
            final(result)@.len() >= old(result)@.len(),
            forall|q: int| 0 <= q < old(result)@.len() ==> final(result)@[q] == old(result)@[q],
            forall|q: int| #![trigger final(result)@[q]] old(result)@.len() <= q < final(result)@.len() ==> exists|x: ID|
                #[trigger] orders@.contains_key(x) && order_write_of(self@, orders@, x, final(result)@[q]),
            forall|x: ID| #[trigger] orders@.contains_key(x) && self@.edges.contains_key(x) && crate::register::winner_value(self@.edges[x].orders).0 != orders@[x].1@
                ==> exists|q: int| old(result)@.len() <= q < final(result)@.len() && order_write_of(self@, orders@, x, #[trigger] final(result)@[q]),
            ids_injective(orders@) ==> forall|q1: int, q2: int, x1: ID, x2: ID|
                old(result)@.len() <= q1 < q2 < final(result)@.len() && orders@.contains_key(x1) && orders@.contains_key(x2)
                && #[trigger] order_write_of(self@, orders@, x1, final(result)@[q1]) && #[trigger] order_write_of(self@, orders@, x2, final(result)@[q2])
                ==> x1 != x2,
            orders@.dom().is_empty() ==> final(result)@ == old(result)@,
    {
        let ghost r0 = result@;
        let ghost mut src: Seq<int> = Seq::empty();
        proof { orders.lemma_view(); }
        let mut k: usize = 0;
        while k < orders.len()
            invariant
                self.wf(),
                orders.wf(),
                k <= orders.entries@.len(),
                result@.len() == r0.len() + src.len(),
                forall|q: int| 0 <= q < r0.len() ==> result@[q] == r0[q],
                forall|i: int| #![trigger src[i]] 0 <= i < src.len() ==> 0 <= src[i] < k
                    && order_write_of(self@, orders@, orders.keys()[src[i]], result@[r0.len() + i]),
                forall|i: int, j: int| 0 <= i < j < src.len() ==> #[trigger] src[i] < #[trigger] src[j],
                forall|j: int| 0 <= j < k ==> ({
                    let x = #[trigger] orders.keys()[j];
                    self@.edges.contains_key(x) && crate::register::winner_value(self@.edges[x].orders).0 != orders@[x].1@
                        ==> exists|i: int| 0 <= i < src.len() && #[trigger] src[i] == j
                }),
            decreases orders.entries@.len() - k,
        {
            proof {
                orders.lemma_at(k as int);
            }
            let current = orders.key_at(k);
            let planned = orders.value_at(k);
            let ghost rb = result@;
            let ghost sb = src;
            match self.order_value(current) {
                Some(v) => {
                    if !v.position.same(&planned.1) {
                        result.push(GraphOp::SetEdgeOrder { id: planned.0, position: planned.1.clone() });
                        proof {
                            src = src.push(k as int);
                            assert(result@[(r0.len() + sb.len()) as int] == result@[rb.len() as int]);
                        }
                    }
                },
                None => {},
            }
            proof {
                assert forall|i: int| #![trigger src[i]] 0 <= i < src.len() implies 0 <= src[i] < k + 1
                    && order_write_of(self@, orders@, orders.keys()[src[i]], result@[r0.len() + i]) by {
                    if i < sb.len() {
                        assert(src[i] == sb[i]);
                        assert(result@[r0.len() + i] == rb[r0.len() + i]);
                    }
                }
                assert forall|j: int| 0 <= j < k + 1 implies ({
                    let x = #[trigger] orders.keys()[j];
                    self@.edges.contains_key(x) && crate::register::winner_value(self@.edges[x].orders).0 != orders@[x].1@
                        ==> exists|i: int| 0 <= i < src.len() && #[trigger] src[i] == j
                }) by {
                    let x = orders.keys()[j];
                    if self@.edges.contains_key(x) && crate::register::winner_value(self@.edges[x].orders).0 != orders@[x].1@ {
                        if j < k {
                            let i = choose|i: int| 0 <= i < sb.len() && #[trigger] sb[i] == j;
                            assert(src[i] == sb[i]);
                        } else {
                            assert(src[sb.len() as int] == j);
                        }
                    }
                }
            }
            k += 1;
        }
        proof {
            assert forall|x: ID| #[trigger] orders@.contains_key(x) && self@.edges.contains_key(x) && crate::register::winner_value(self@.edges[x].orders).0 != orders@[x].1@
                implies exists|q: int| r0.len() <= q < result@.len() && order_write_of(self@, orders@, x, #[trigger] result@[q]) by {
                let j = choose|j: int| 0 <= j < orders.entries@.len() && orders.entries@[j].0 == x;
                assert(orders.keys()[j] == x);
                let i = choose|i: int| 0 <= i < src.len() && #[trigger] src[i] == j;
                assert(order_write_of(self@, orders@, orders.keys()[src[i]], result@[r0.len() + i]));
            }
            assert forall|q: int| #![trigger result@[q]] r0.len() <= q < result@.len() implies exists|x: ID|
                #[trigger] orders@.contains_key(x) && order_write_of(self@, orders@, x, result@[q]) by {
                let i = q - r0.len();
                assert(0 <= src[i] < orders.entries@.len());
                orders.lemma_at(src[i]);
            }
            if orders@.dom().is_empty() {
                if src.len() > 0 {
                    assert(0 <= src[0] < k);
                }
                assert(result@ =~= r0);
            }
            if ids_injective(orders@) {
            assert forall|q1: int, q2: int, x1: ID, x2: ID|
                r0.len() <= q1 < q2 < result@.len() && orders@.contains_key(x1) && orders@.contains_key(x2)
                && #[trigger] order_write_of(self@, orders@, x1, result@[q1]) && #[trigger] order_write_of(self@, orders@, x2, result@[q2])
                implies x1 != x2 by {
                let i1 = q1 - r0.len();
                let i2 = q2 - r0.len();
                assert(src[i1] < src[i2]);
                let y1 = orders.keys()[src[i1]];
                let y2 = orders.keys()[src[i2]];
                assert(order_write_of(self@, orders@, y1, result@[q1]));
                assert(order_write_of(self@, orders@, y2, result@[q2]));
                assert(id_lt(y1, y2));
                orders.lemma_at(src[i1]);
                orders.lemma_at(src[i2]);
            }
            }
        }
    }
}

impl GraphState {
    /// Whether an existing node is alive once the non-creating edits apply.
    fn existing_node_alive(&self, edits: &Edits, remap: &IdMap<ID>, node_alive: &IdMap<bool>, id: ID) -> (r: bool)
        requires
            self.wf(),
            node_alive.wf(),
        ensures
            r == existing_alive(self@, node_alive@, id),
    {
        match node_alive.get(id) {
            Some(a) => *a,
            None => match self.node_life(id) {
                Some(l) => l.alive(),
                None => false,
            },
        }
    }

    /// Whether an endpoint of a copied edge is alive: a copied node by its own
    /// lifecycle, any other by the existing node it maps to.
    fn copied_endpoint_alive(&self, edits: &Edits, remap: &IdMap<ID>, node_alive: &IdMap<bool>, id: ID) -> (r: bool)
        requires
            self.wf(),
            edits.wf(),
            remap.wf(),
            node_alive.wf(),
        ensures
            r == if edits.nodes@.contains_key(id) && edits.nodes@[id].create is Some {
                edits.nodes@[id].after matches Some(l) && life_alive(l@)
            } else {
                existing_alive(self@, node_alive@, remapped(remap@, id))
            },
    {
        match edits.nodes.get(id) {
            Some(edit) => {
                if edit.create.is_some() {
                    return alive_opt(&edit.after);
                }
            },
            None => {},
        }
        self.existing_node_alive(edits, remap, node_alive, remap_id(remap, id))
    }

    /// Plan keys for the out-sequence of one existing source: its selected copies
    /// and its existing out-edges that stay, ordered by `(key, identity)`.
    fn plan_source(
        &self,
        edits: &Edits,
        remap: &IdMap<ID>,
        node_alive: &IdMap<bool>,
        edge_alive: &IdMap<bool>,
        orders: &IdMap<(GraphEdgeId, GraphPosition)>,
        source: ID,
        copies: &Vec<CopyOrderEdge>,
        Ghost(lim): Ghost<int>,
    ) -> (r: Result<Vec<(Destination, GraphPosition)>, crate::position::GraphOrderError>)
        requires
            self.wf(),
            edits.wf(),
            remap.wf(),
            node_alive.wf(),
            edge_alive.wf(),
            orders.wf(),
            node_alive@ == edited_alive(edits.nodes.entries@, remap@),
            edge_alive@ == edited_alive(edits.edges.entries@, remap@),
            forall|q: int| 0 <= q < copies@.len() ==> (#[trigger] copies@[q]).destination is Create,
            entry_dests_unique(copies@),
        ensures
            r matches Ok(a) ==> source_plan_ok(self@, *edits, remap@, orders@, source, copies@, a@),
            (self.jitter() == 0 && copies@.len() + self@.edges.dom().len() <= lim
                && (forall|q: int| 0 <= q < copies@.len() ==> (#[trigger] copies@[q]).position@.len() + lim <= crate::position::MAX_GRAPH_POSITION_BYTES)
                && (forall|e: ID| #[trigger] self@.edges.contains_key(e) ==> crate::register::winner_value(self@.edges[e].orders).0.len() + lim <= crate::position::MAX_GRAPH_POSITION_BYTES)
                && (forall|x: ID| #[trigger] orders@.contains_key(x) ==> orders@[x].1@.len() + lim <= crate::position::MAX_GRAPH_POSITION_BYTES)) ==> r is Ok,
    {
        let mut sequence: Vec<CopyOrderEdge> = Vec::new();
        let mut k: usize = 0;
        while k < copies.len()
            invariant
                k <= copies@.len(),
                sequence@.len() == k,
                forall|q: int| 0 <= q < k ==> same_entry(#[trigger] sequence@[q], copies@[q]),
            decreases copies@.len() - k,
        {
            let e = &copies[k];
            sequence.push(CopyOrderEdge { id: e.id, position: e.position.duplicate(), destination: e.destination });
            k += 1;
        }
        let nc = copies.len();
        let out = self.edges_from(source);
        let mut k: usize = 0;
        while k < out.len()
            invariant
                self.wf(),
                edits.wf(),
                remap.wf(),
                node_alive.wf(),
                edge_alive.wf(),
                orders.wf(),
                node_alive@ == edited_alive(edits.nodes.entries@, remap@),
                edge_alive@ == edited_alive(edits.edges.entries@, remap@),
                nc == copies@.len(),
                k <= out@.len(),
                nc <= sequence@.len() <= nc + k,
                forall|e: ID| #[trigger] edge_ids(out@).contains(e) <==> self@.edges.contains_key(e) && self@.edges[e].source == source,
                forall|a: int, b: int| 0 <= a < b < out@.len() ==> id_lt((#[trigger] out@[a]).spec_id(), (#[trigger] out@[b]).spec_id()),
                forall|q: int| 0 <= q < nc ==> same_entry(#[trigger] sequence@[q], copies@[q]),
                forall|q: int| nc <= q < sequence@.len() ==> existing_entry(self@, *edits, remap@, orders@, source, #[trigger] sequence@[q]),
                forall|q1: int, q2: int| nc <= q1 < q2 < sequence@.len() ==> id_lt((#[trigger] sequence@[q1]).id.spec_id(), (#[trigger] sequence@[q2]).id.spec_id()),
                k < out@.len() ==> forall|q: int| nc <= q < sequence@.len() ==> id_lt((#[trigger] sequence@[q]).id.spec_id(), out@[k as int].spec_id()),
                forall|t: int| 0 <= t < k && existing_selected(self@, *edits, remap@, source, (#[trigger] out@[t]).spec_id()) ==> exists|q: int|
                    nc <= q < sequence@.len() && (#[trigger] sequence@[q]).id == out@[t],
            decreases out@.len() - k,
        {
            let id = out[k];
            proof {
                assert(edge_ids(out@)[k as int] == id.spec_id());
                assert(edge_ids(out@).contains(id.spec_id()));
            }
            let ghost s0 = sequence@;
            match self.edge_life(id.id()) {
                Some((life, esrc, etgt)) => {
                    let alive = match edge_alive.get(id.id()) {
                        Some(a) => *a,
                        None => life.alive(),
                    };
                    if alive && self.existing_node_alive(edits, remap, node_alive, esrc.id())
                        && self.existing_node_alive(edits, remap, node_alive, etgt.id()) {
                        let position = match orders.get(id.id()) {
                            Some(planned) => Some(planned.1.duplicate()),
                            None => match self.order_value(id.id()) {
                                Some(v) => Some(v.position),
                                None => None,
                            },
                        };
                        match position {
                            Some(position) => {
                                sequence.push(CopyOrderEdge { id, position, destination: Destination::Existing(id) });
                            },
                            None => {},
                        }
                    }
                },
                None => {},
            }
            proof {
                assert forall|q: int| 0 <= q < nc implies same_entry(#[trigger] sequence@[q], copies@[q]) by {
                    assert(sequence@[q] == s0[q]);
                }
                assert forall|q: int| nc <= q < sequence@.len() implies existing_entry(self@, *edits, remap@, orders@, source, #[trigger] sequence@[q]) by {
                    if q < s0.len() {
                        assert(sequence@[q] == s0[q]);
                    }
                }
                assert forall|q1: int, q2: int| nc <= q1 < q2 < sequence@.len() implies id_lt((#[trigger] sequence@[q1]).id.spec_id(), (#[trigger] sequence@[q2]).id.spec_id()) by {
                    assert(sequence@[q1] == s0[q1]);
                    if q2 < s0.len() {
                        assert(sequence@[q2] == s0[q2]);
                    }
                }
                if k + 1 < out@.len() {
                    assert(id_lt(out@[k as int].spec_id(), out@[k + 1].spec_id()));
                    assert forall|q: int| nc <= q < sequence@.len() implies id_lt((#[trigger] sequence@[q]).id.spec_id(), out@[k + 1].spec_id()) by {
                        if q < s0.len() {
                            assert(sequence@[q] == s0[q]);
                        }
                    }
                }
                assert forall|t: int| 0 <= t < k + 1 && existing_selected(self@, *edits, remap@, source, (#[trigger] out@[t]).spec_id()) implies exists|q: int|
                    nc <= q < sequence@.len() && (#[trigger] sequence@[q]).id == out@[t] by {
                    if t < k {
                        let q = choose|q: int| nc <= q < s0.len() && (#[trigger] s0[q]).id == out@[t];
                        assert(sequence@[q] == s0[q]);
                    } else {
                        assert(sequence@.len() == s0.len() + 1);
                        assert(sequence@[s0.len() as int].id == id);
                    }
                }
            }
            k += 1;
        }
        let ghost sq = sequence@;
        proof {
            assert forall|i: int, j: int| 0 <= i < sq.len() && 0 <= j < sq.len() && i != j implies (#[trigger] sq[i]).destination != (#[trigger] sq[j]).destination by {
                if i < nc && j < nc {
                    assert(same_entry(sq[i], copies@[i]) && same_entry(sq[j], copies@[j]));
                } else if i < nc {
                    assert(same_entry(sq[i], copies@[i]));
                    assert(existing_entry(self@, *edits, remap@, orders@, source, sq[j]));
                } else if j < nc {
                    assert(same_entry(sq[j], copies@[j]));
                    assert(existing_entry(self@, *edits, remap@, orders@, source, sq[i]));
                } else {
                    assert(existing_entry(self@, *edits, remap@, orders@, source, sq[i]));
                    assert(existing_entry(self@, *edits, remap@, orders@, source, sq[j]));
                    if i < j {
                        assert(id_lt(sq[i].id.spec_id(), sq[j].id.spec_id()));
                    } else {
                        assert(id_lt(sq[j].id.spec_id(), sq[i].id.spec_id()));
                    }
                }
            }
        }
        let sorted = sort_by_key(sequence);
        let ghost room = self.jitter() == 0 && copies@.len() + self@.edges.dom().len() <= lim
            && (forall|q: int| 0 <= q < copies@.len() ==> (#[trigger] copies@[q]).position@.len() + lim <= crate::position::MAX_GRAPH_POSITION_BYTES)
            && (forall|e: ID| #[trigger] self@.edges.contains_key(e) ==> crate::register::winner_value(self@.edges[e].orders).0.len() + lim <= crate::position::MAX_GRAPH_POSITION_BYTES)
            && (forall|x: ID| #[trigger] orders@.contains_key(x) ==> orders@[x].1@.len() + lim <= crate::position::MAX_GRAPH_POSITION_BYTES);
        proof {
            if room {
                assert(out@.len() <= self@.edges.dom().len());
                assert forall|i: int| 0 <= i < sorted@.len() implies pos(sorted@, i).len() + sorted@.len() <= crate::position::MAX_GRAPH_POSITION_BYTES by {
                    assert(sq.contains(sorted@[i]));
                    let j = choose|j: int| 0 <= j < sq.len() && sq[j] == sorted@[i];
                    if j < nc {
                        assert(same_entry(sq[j], copies@[j]));
                    } else {
                        assert(existing_entry(self@, *edits, remap@, orders@, source, sq[j]));
                        let e = sq[j].id.spec_id();
                        if orders@.contains_key(e) {
                        } else {
                            assert(self@.edges.contains_key(e));
                        }
                    }
                }
            }
        }
        let res = assign_mixed_groups(&sorted, self.order_jitter());
        match res {
            Ok(a) => {
                proof {
                    lemma_plan_source(self@, *edits, remap@, orders@, source, copies@, sq, sorted@, a@, out@);
                }
                Ok(a)
            },
            Err(e) => Err(e),
        }
    }

    /// Keep copied edges in the order they had in the diff's source state among the existing out-edges of
    /// each existing source: copies that share a key with existing edges get new
    /// keys, and so may existing edges after them (as order writes). Nothing in
    /// the plan changes unless every source gets its keys.
    pub fn plan_copied_edge_order(
        &self,
        edits: &Edits,
        remap: &IdMap<ID>,
        creates: &mut Vec<GraphOp>,
        orders: &mut IdMap<(GraphEdgeId, GraphPosition)>,
    ) -> (r: Result<(), GraphError>)
        requires
            self.wf(),
            edits.wf(),
            remap.wf(),
            old(orders).wf(),
        ensures
            final(orders).wf(),
            final(creates)@.len() == old(creates)@.len(),
            forall|k: int| 0 <= k < final(creates)@.len() ==> op_object(#[trigger] final(creates)@[k]) == op_object(old(creates)@[k])
                && (final(creates)@[k] is CreateEdge <==> old(creates)@[k] is CreateEdge)
                && (final(creates)@[k] is CreateNode <==> old(creates)@[k] is CreateNode),
            r is Err ==> final(creates)@ == old(creates)@ && final(orders)@ == old(orders)@,
            // Only allocating keys can fail, and nothing is allocated without copied edges.
            r matches Err(e) ==> e is Order,
            (forall|k: int| 0 <= k < old(creates)@.len() ==> !(#[trigger] old(creates)@[k] is CreateEdge)) ==> r is Ok
                && final(creates)@ == old(creates)@ && final(orders)@ == old(orders)@,
            forall|k: ID| #[trigger] old(orders)@.contains_key(k) ==> final(orders)@.contains_key(k) && final(orders)@[k].0 == old(orders)@[k].0,
            forall|k: int| 0 <= k < final(creates)@.len() ==> same_creation(old(creates)@[k], #[trigger] final(creates)@[k]),
            forall|k: ID| #[trigger] final(orders)@.contains_key(k) ==> (old(orders)@.contains_key(k) && final(orders)@[k].0
                == old(orders)@[k].0) || final(orders)@[k].0.spec_id() == k,
            // without jitter, and with room for the gap keys, every source gets its keys
            copy_room(self@, self.jitter(), old(creates)@, old(orders)@) ==> r is Ok,
            // every copy keeps its order by (key, identity) against every existing
            // out-edge of its source that stays, strictly, for every source
            r is Ok ==> forall|k: int, e: ID|
                0 <= k < old(creates)@.len() && #[trigger] copy_selected(self@, *edits, remap@, old(creates)@[k])
                    && #[trigger] existing_selected(self@, *edits, remap@, remapped(remap@, copy_source(old(creates)@[k])), e)
                    ==> copy_order_kept(
                    old(creates)@[k],
                    final(creates)@[k],
                    e,
                    planned_key(self@, old(orders)@, e),
                    planned_key(self@, final(orders)@, e),
                ),
            // and nothing else moves: other creations keep their keys, and so does
            // every existing edge that no selected copy shares a source with
            r is Ok ==> forall|k: int|
                0 <= k < old(creates)@.len() && !copy_selected(self@, *edits, remap@, #[trigger] old(creates)@[k])
                    ==> create_key(final(creates)@[k]) == create_key(old(creates)@[k]),
            r is Ok ==> forall|e: ID|
                (forall|k: int|
                    0 <= k < old(creates)@.len() ==> !(#[trigger] copy_selected(self@, *edits, remap@, old(creates)@[k])
                        && existing_selected(self@, *edits, remap@, remapped(remap@, copy_source(old(creates)@[k])), e)))
                    ==> #[trigger] planned_key(self@, final(orders)@, e) == planned_key(self@, old(orders)@, e),
    {
        let ghost room = copy_room(self@, self.jitter(), creates@, orders@);
        let ghost lim = creates@.len() + self@.edges.dom().len();
        let mut any_edge = false;
        let mut i: usize = 0;
        while i < creates.len()
            invariant
                i <= creates@.len(),
                any_edge <==> exists|k: int| 0 <= k < i && #[trigger] creates@[k] is CreateEdge,
            decreases creates@.len() - i,
        {
            if matches!(creates[i], GraphOp::CreateEdge { .. }) {
                any_edge = true;
            }
            i += 1;
        }
        if !any_edge {
            return Ok(());
        }
        // Lifecycles of existing objects after the non-creating edits.
        let mut node_alive: IdMap<bool> = IdMap::new();
        let mut edge_alive: IdMap<bool> = IdMap::new();
        let mut i: usize = 0;
        while i < edits.nodes.len()
            invariant
                edits.wf(),
                remap.wf(),
                node_alive.wf(),
                i <= edits.nodes.entries@.len(),
                node_alive@ == edited_alive(edits.nodes.entries@.take(i as int), remap@),
                exists|k: int| 0 <= k < creates@.len() && #[trigger] creates@[k] is CreateEdge,
            decreases edits.nodes.entries@.len() - i,
        {
            let id = edits.nodes.key_at(i);
            let edit = edits.nodes.value_at(i);
            proof {
                edits.nodes.lemma_at(i as int);
                assert(edits.nodes.entries@.take(i + 1).drop_last() =~= edits.nodes.entries@.take(i as int));
            }
            if edit.create.is_none() {
                let a = alive_opt(&edit.after);
                node_alive.insert(remap_id(remap, id), a);
            }
            i += 1;
        }
        proof {
            assert(edits.nodes.entries@.take(edits.nodes.entries@.len() as int) =~= edits.nodes.entries@);
        }
        let mut i: usize = 0;
        while i < edits.edges.len()
            invariant
                edits.wf(),
                remap.wf(),
                edge_alive.wf(),
                i <= edits.edges.entries@.len(),
                edge_alive@ == edited_alive(edits.edges.entries@.take(i as int), remap@),
                exists|k: int| 0 <= k < creates@.len() && #[trigger] creates@[k] is CreateEdge,
            decreases edits.edges.entries@.len() - i,
        {
            let id = edits.edges.key_at(i);
            let edit = edits.edges.value_at(i);
            proof {
                edits.edges.lemma_at(i as int);
                assert(edits.edges.entries@.take(i + 1).drop_last() =~= edits.edges.entries@.take(i as int));
            }
            if edit.create.is_none() {
                let a = alive_opt(&edit.after);
                edge_alive.insert(remap_id(remap, id), a);
            }
            i += 1;
        }
        proof {
            assert(edits.edges.entries@.take(edits.edges.entries@.len() as int) =~= edits.edges.entries@);
        }
        // The copied out-edges of each existing source.
        let ghost c0 = creates@;
        let mut sources: IdMap<Vec<CopyOrderEdge>> = IdMap::new();
        let mut index: usize = 0;
        while index < creates.len()
            invariant
                self.wf(),
                edits.wf(),
                remap.wf(),
                node_alive.wf(),
                sources.wf(),
                creates@ == c0,
                node_alive@ == edited_alive(edits.nodes.entries@, remap@),
                index <= creates@.len(),
                exists|k: int| 0 <= k < creates@.len() && #[trigger] creates@[k] is CreateEdge,
                room == copy_room(self@, self.jitter(), creates@, orders@),
                lim == creates@.len() + self@.edges.dom().len(),
                sources_inv(self@, *edits, remap@, c0, sources@, index as int, room, lim as int),
            decreases creates@.len() - index,
        {
            let ghost sm = sources@;
            match &creates[index] {
                GraphOp::CreateEdge { id, source, target, position } => {
                    let edge_ok = match edits.edges.get(id.id()) {
                        Some(edit) => alive_opt(&edit.after),
                        None => false,
                    };
                    let fresh_source = match edits.nodes.get(source.id()) {
                        Some(edit) => edit.create.is_some(),
                        None => false,
                    };
                    if edge_ok && self.copied_endpoint_alive(edits, remap, &node_alive, source.id())
                        && self.copied_endpoint_alive(edits, remap, &node_alive, target.id()) && !fresh_source {
                        let key = remap_id(remap, source.id());
                        let item = CopyOrderEdge { id: *id, position: position.duplicate(), destination: Destination::Create(index) };
                        let mut list = match sources.remove(key) {
                            Some(v) => v,
                            None => Vec::new(),
                        };
                        let ghost l0 = list@;
                        proof {
                            if sm.contains_key(key) {
                                assert(l0 == sm[key]@);
                            }
                        }
                        let ghost it = item;
                        list.push(item);
                        proof {
                            assert(creates@[index as int] matches GraphOp::CreateEdge { position, .. });
                        }
                        sources.insert(key, list);
                        proof {
                            assert(copy_selected(self@, *edits, remap@, c0[index as int]));
                            lemma_sources_step(self@, *edits, remap@, c0, sm, sources@, key, l0, it, index as int, room, lim as int);
                        }
                    } else {
                        proof {
                            assert(!copy_selected(self@, *edits, remap@, c0[index as int]));
                            lemma_sources_skip(self@, *edits, remap@, c0, sources@, index as int, room, lim as int);
                        }
                    }
                },
                _ => {
                    proof {
                        assert(!copy_selected(self@, *edits, remap@, c0[index as int]));
                        lemma_sources_skip(self@, *edits, remap@, c0, sources@, index as int, room, lim as int);
                    }
                },
            }
            index += 1;
        }
        // Plan every source; nothing is written before all of them succeed.
        let mut assignments: Vec<(Destination, GraphPosition)> = Vec::new();
        proof { sources.lemma_view(); }
        let ghost smap = sources@;
        let ghost skeys = sources.keys();
        let entries = sources.into_entries();
        proof {
            assert forall|t: int| 0 <= t < entries@.len() implies smap.contains_key((#[trigger] entries@[t]).0) && smap[entries@[t].0] == entries@[t].1 by {
                assert(entries@[t] == sources.entries@[t]);
            }
            assert forall|x: ID| #[trigger] smap.contains_key(x) implies exists|t: int| 0 <= t < entries@.len() && entries@[t].0 == x by {
                let t = choose|t: int| 0 <= t < sources.entries@.len() && sources.entries@[t].0 == x;
                assert(entries@[t] == sources.entries@[t]);
            }
            assert forall|t1: int, t2: int| 0 <= t1 < entries@.len() && 0 <= t2 < entries@.len() && t1 != t2 implies (#[trigger] entries@[t1]).0 != (#[trigger] entries@[t2]).0 by {
                assert(entries@[t1].0 == skeys[t1] && entries@[t2].0 == skeys[t2]);
                if t1 < t2 {
                    assert(id_lt(skeys[t1], skeys[t2]));
                } else {
                    assert(id_lt(skeys[t2], skeys[t1]));
                }
            }
        }
        let mut s: usize = 0;
        while s < entries.len()
            invariant
                self.wf(),
                edits.wf(),
                remap.wf(),
                node_alive.wf(),
                edge_alive.wf(),
                orders.wf(),
                creates@ == c0,
                node_alive@ == edited_alive(edits.nodes.entries@, remap@),
                edge_alive@ == edited_alive(edits.edges.entries@, remap@),
                s <= entries@.len(),
                exists|k: int| 0 <= k < creates@.len() && #[trigger] creates@[k] is CreateEdge,
                room == copy_room(self@, self.jitter(), creates@, orders@),
                lim == creates@.len() + self@.edges.dom().len(),
                sources_inv(self@, *edits, remap@, c0, smap, c0.len() as int, room, lim as int),
                entries_of(smap, entries@),
                dests_unique(assignments@),
                forall|q: int| 0 <= q < assignments@.len() ==> owned_within(self@, *edits, remap@, entries@, s as int, (#[trigger] assignments@[q]).0),
                forall|t: int| 0 <= t < s ==> #[trigger] source_kept(self@, *edits, remap@, orders@, entries@[t], assignments@),
            decreases entries@.len() - s,
        {
            let source = entries[s].0;
            proof {
                let l = smap[source]@;
                assert(entries@[s as int].1@ == l);
                assert forall|q: int| 0 <= q < l.len() implies (#[trigger] l[q]).destination is Create by {
                    assert(copy_entry(self@, *edits, remap@, c0, source, smap[source]@[q], c0.len() as int));
                }
                assert forall|i: int, j: int| 0 <= i < l.len() && 0 <= j < l.len() && i != j implies (#[trigger] l[i]).destination != (#[trigger] l[j]).destination by {
                    assert(smap[source]@[i] == l[i] && smap[source]@[j] == l[j]);
                }
            }
            let res = self.plan_source(edits, remap, &node_alive, &edge_alive, orders, source, &entries[s].1, Ghost(lim as int));
            match res {
                Ok(a) => {
                    let ghost base = assignments@;
                    let mut q: usize = 0;
                    while q < a.len()
                        invariant
                            q <= a@.len(),
                            assignments@.len() == base.len() + q,
                            forall|i: int| 0 <= i < base.len() ==> assignments@[i] == base[i],
                            forall|i: int| base.len() <= i < assignments@.len() ==> (#[trigger] assignments@[i]).0 == a@[i - base.len()].0
                                && assignments@[i].1@ == a@[i - base.len()].1@,
                        decreases a@.len() - q,
                    {
                        assignments.push((a[q].0, a[q].1.duplicate()));
                        q += 1;
                    }
                    proof {
                        lemma_entries_step(self@, *edits, remap@, orders@, c0, smap, entries@, room, lim as int, s as int, base, a@, assignments@);
                    }
                },
                Err(e) => {
                    proof {
                        if room {
                            let l = smap[source]@;
                            assert(entries@[s as int].1@ == l);
                            assert forall|q: int| 0 <= q < l.len() implies (#[trigger] l[q]).position@.len() + lim <= crate::position::MAX_GRAPH_POSITION_BYTES by {
                                assert(smap[source]@[q] == l[q]);
                            }
                        }
                    }
                    return Err(GraphError::Order(e));
                },
            }
            s += 1;
        }
        // Every source succeeded: write the keys into the plan.
        let ghost orders0 = orders@;
        proof {
            lemma_assignments_complete(self@, *edits, remap@, c0, smap, entries@, room, lim as int, assignments@);
        }
        let mut q: usize = 0;
        while q < assignments.len()
            invariant
                orders.wf(),
                q <= assignments@.len(),
                creates@.len() == c0.len(),
                dests_unique(assignments@),
                forall|p: int| 0 <= p < assignments@.len() ==> ((#[trigger] assignments@[p]).0 matches Destination::Create(k) ==> k < c0.len() && c0[k as int] is CreateEdge),
                forall|k: int| 0 <= k < creates@.len() ==> op_object(#[trigger] creates@[k]) == op_object(c0[k])
                    && (creates@[k] is CreateEdge <==> c0[k] is CreateEdge)
                    && (creates@[k] is CreateNode <==> c0[k] is CreateNode),
                forall|k: ID| #[trigger] orders0.contains_key(k) ==> orders@.contains_key(k) && orders@[k].0 == orders0[k].0,
                forall|k: int| 0 <= k < creates@.len() ==> same_creation(c0[k], #[trigger] creates@[k]),
                forall|k: ID| #[trigger] orders@.contains_key(k) ==> (orders0.contains_key(k) && orders@[k].0
                    == orders0[k].0) || orders@[k].0.spec_id() == k,
                forall|k: int| 0 <= k < creates@.len() && c0[k] is CreateEdge ==> #[trigger] create_key(creates@[k]) == dest_key(
                    assignments@.take(q as int),
                    Destination::Create(k as usize),
                    create_key(c0[k]),
                ),
                forall|e: ID| #[trigger] planned_key(self@, orders@, e) == dest_key(
                    assignments@.take(q as int),
                    Destination::Existing(crate::ids::edge_of(e)),
                    planned_key(self@, orders0, e),
                ),
            decreases assignments@.len() - q,
        {
            let ghost cq = creates@;
            let ghost oq = orders@;
            let position = assignments[q].1.duplicate();
            proof {
                lemma_dest_key_take(assignments@, q as int);
            }
            match assignments[q].0 {
                Destination::Create(index) => {
                    if index < creates.len() {
                        let op = copy_op(&creates[index]);
                        match op {
                            GraphOp::CreateEdge { id, source, target, .. } => {
                                creates.set(index, GraphOp::CreateEdge { id, source, target, position });
                                proof {
                                    assert forall|k: int| 0 <= k < creates@.len() implies op_object(#[trigger] creates@[k]) == op_object(c0[k])
                                        && (creates@[k] is CreateEdge <==> c0[k] is CreateEdge)
                                        && (creates@[k] is CreateNode <==> c0[k] is CreateNode) by {
                                        if k != index {
                                            assert(creates@[k] == cq[k]);
                                        }
                                    }
                                    assert forall|k: int| 0 <= k < creates@.len() implies same_creation(c0[k], #[trigger] creates@[k]) by {
                                        if k != index {
                                            assert(creates@[k] == cq[k]);
                                        } else {
                                            assert(same_creation(c0[k], cq[k]));
                                        }
                                    }
                                    assert forall|k: int| 0 <= k < creates@.len() && c0[k] is CreateEdge implies #[trigger] create_key(creates@[k]) == dest_key(
                                        assignments@.take(q + 1),
                                        Destination::Create(k as usize),
                                        create_key(c0[k]),
                                    ) by {
                                        if k != index {
                                            assert(creates@[k] == cq[k]);
                                            assert(create_key(cq[k]) == dest_key(assignments@.take(q as int), Destination::Create(k as usize), create_key(c0[k])));
                                        }
                                    }
                                    assert forall|e: ID| #[trigger] planned_key(self@, orders@, e) == dest_key(
                                        assignments@.take(q + 1),
                                        Destination::Existing(crate::ids::edge_of(e)),
                                        planned_key(self@, orders0, e),
                                    ) by {
                                        assert(planned_key(self@, oq, e) == dest_key(assignments@.take(q as int), Destination::Existing(crate::ids::edge_of(e)), planned_key(self@, orders0, e)));
                                    }
                                }
                            },
                            _ => {},
                        }
                    }
                },
                Destination::Existing(id) => {
                    let first = match orders.get(id.id()) {
                        Some(planned) => planned.0,
                        None => id,
                    };
                    orders.insert(id.id(), (first, position));
                    proof {
                        assert forall|k: int| 0 <= k < creates@.len() && c0[k] is CreateEdge implies #[trigger] create_key(creates@[k]) == dest_key(
                            assignments@.take(q + 1),
                            Destination::Create(k as usize),
                            create_key(c0[k]),
                        ) by {
                            assert(create_key(cq[k]) == dest_key(assignments@.take(q as int), Destination::Create(k as usize), create_key(c0[k])));
                        }
                        assert forall|e: ID| #[trigger] planned_key(self@, orders@, e) == dest_key(
                            assignments@.take(q + 1),
                            Destination::Existing(crate::ids::edge_of(e)),
                            planned_key(self@, orders0, e),
                        ) by {
                            assert(planned_key(self@, oq, e) == dest_key(assignments@.take(q as int), Destination::Existing(crate::ids::edge_of(e)), planned_key(self@, orders0, e)));
                            if e == id.spec_id() {
                                assert(crate::ids::edge_of(e) == id);
                            } else {
                                assert(crate::ids::edge_of(e) != id);
                            }
                        }
                    }
                },
            }
            q += 1;
        }
        proof {
            assert(assignments@.take(assignments@.len() as int) =~= assignments@);
            lemma_plan_final(self@, *edits, remap@, orders0, orders@, c0, creates@, smap, entries@, room, lim as int, assignments@);
        }
        Ok(())
    }
}

/// Whether every tag is a delete recorded in `l`.
fn all_known(l: &Life, tags: &Vec<ID>) -> (r: bool)
    requires
        l.wf(),
    ensures
        r == forall|i: int| 0 <= i < tags@.len() ==> l@.deletes.contains_key(#[trigger] tags@[i]),
{
    let mut i: usize = 0;
    while i < tags.len()
        invariant
            l.wf(),
            i <= tags@.len(),
            forall|k: int| 0 <= k < i ==> l@.deletes.contains_key(#[trigger] tags@[k]),
        decreases tags@.len() - i,
    {
        if !l.deletes.contains_key(tags[i]) {
            return false;
        }
        i += 1;
    }
    true
}

/// The delete (node or edge) of an object.
fn delete_of(is_node: bool, id: ID) -> (r: GraphOp)
    ensures
        op_object(r) == id,
        r == (if is_node { GraphOp::DeleteNode { id: crate::ids::node_of(id) } } else { GraphOp::DeleteEdge { id: crate::ids::edge_of(id) } }),
{
    if is_node { GraphOp::DeleteNode { id: GraphNodeId::from_id(id) } } else { GraphOp::DeleteEdge { id: GraphEdgeId::from_id(id) } }
}

/// The restore (node or edge) of an object naming `tags`.
fn restore_of(is_node: bool, id: ID, tags: Vec<ID>) -> (r: GraphOp)
    ensures
        op_object(r) == id,
        r == (if is_node {
            GraphOp::RestoreNode { id: crate::ids::node_of(id), deletes: tags }
        } else {
            GraphOp::RestoreEdge { id: crate::ids::edge_of(id), deletes: tags }
        }),
{
    if is_node {
        GraphOp::RestoreNode { id: GraphNodeId::from_id(id), deletes: tags }
    } else {
        GraphOp::RestoreEdge { id: GraphEdgeId::from_id(id), deletes: tags }
    }
}

/// Whether `x` is listed.
fn listed(v: &Vec<ID>, x: ID) -> (r: bool)
    ensures
        r == v@.contains(x),
{
    let mut i: usize = 0;
    while i < v.len()
        invariant
            i <= v@.len(),
            forall|k: int| 0 <= k < i ==> v@[k] != x,
        decreases v@.len() - i,
    {
        if v[i] == x {
            return true;
        }
        i += 1;
    }
    false
}

impl GraphState {
    /// Replay one change of a diff on the edit of its object.
    fn edit_change(
        &self,
        edits: &mut Edits,
        change: &GraphChange,
        remap: &IdMap<ID>,
        Ghost(ops): Ghost<Seq<GraphChange>>,
        Ghost(j): Ghost<int>,
    ) -> (r: Result<(), GraphError>)
        requires
            self.wf(),
            old(edits).wf(),
            remap.wf(),
            op_valid(change.op, change.id),
            0 <= j < ops.len(),
            ops[j] == *change,
            !(change.op is SetEdgeOrder),
            edits_ok(self@, remap@, ops, *old(edits)),
        ensures
            final(edits).wf(),
            edits_ok(self@, remap@, ops, *final(edits)),
            r matches Err(e) ==> e == GraphError::InvalidOperation,
            final(edits).nodes.entries@.len() + final(edits).edges.entries@.len() <= old(edits).nodes.entries@.len()
                + old(edits).edges.entries@.len() + 1,
            ({
                let x0 = op_object(change.op);
                let is_node = op_is_node(change.op);
                let old_map = if is_node { old(edits).nodes@ } else { old(edits).edges@ };
                let new_map = if is_node { final(edits).nodes@ } else { final(edits).edges@ };
                let prev = if old_map.contains_key(x0) { edit_view(old_map[x0]) } else { edit_start(self@, remap@, x0, is_node) };
                &&& (r is Ok <==> edit_step(prev, *change) is Some)
                &&& r is Ok ==> new_map.contains_key(x0) && Some(edit_view(new_map[x0])) == edit_step(prev, *change)
                &&& is_node ==> forall|x: ID| x != x0 ==> (#[trigger] final(edits).nodes@.contains_key(x) <==> old(edits).nodes@.contains_key(x))
                &&& is_node ==> forall|x: ID| x != x0 && #[trigger] final(edits).nodes@.contains_key(x) ==> final(edits).nodes@[x] == old(edits).nodes@[x]
                &&& !is_node ==> forall|x: ID| x != x0 ==> (#[trigger] final(edits).edges@.contains_key(x) <==> old(edits).edges@.contains_key(x))
                &&& !is_node ==> forall|x: ID| x != x0 && #[trigger] final(edits).edges@.contains_key(x) ==> final(edits).edges@[x] == old(edits).edges@[x]
                &&& is_node ==> final(edits).edges@ == old(edits).edges@
                &&& !is_node ==> final(edits).nodes@ == old(edits).nodes@
            }),
    {
        let is_node = change.op.is_node_op();
        let id = change.op.object();
        let existing = if is_node { edits.nodes.remove(id) } else { edits.edges.remove(id) };
        let mut edit = match existing {
            Some(e) => e,
            None => {
                let target = remap_id(remap, id);
                let before = if is_node {
                    match self.node_life(target) {
                        Some(l) => Some(l.duplicate()),
                        None => None,
                    }
                } else {
                    match self.edge_life(target) {
                        Some((l, _, _)) => Some(l.duplicate()),
                        None => None,
                    }
                };
                let after = match &before {
                    Some(l) => Some(l.duplicate()),
                    None => None,
                };
                Edit { before, after, create: None }
            },
        };
        let mut result: Result<(), GraphError> = Ok(());
        match &change.op {
            GraphOp::CreateNode { .. } | GraphOp::CreateEdge { .. } => {
                if change.forward {
                    // Recreating an object: the copy starts a fresh lifecycle.
                    edit.before = None;
                    edit.after = Some(Life::new(0));
                    edit.create = Some(copy_op(&change.op));
                } else {
                    edit.after = None;
                }
            },
            GraphOp::DeleteNode { .. } | GraphOp::DeleteEdge { .. } => {
                match edit.after {
                    Some(mut l) => {
                        l.delete(change.id, change.lamport, change.forward);
                        edit.after = Some(l);
                    },
                    None => {
                        edit.after = None;
                        result = Err(GraphError::InvalidOperation);
                    },
                }
            },
            GraphOp::RestoreNode { deletes, .. } | GraphOp::RestoreEdge { deletes, .. } => {
                match edit.after {
                    Some(mut l) => {
                        if change.forward && !all_known(&l, deletes) {
                            result = Err(GraphError::InvalidOperation);
                        } else {
                            l.restore(change.id, change.lamport, deletes, change.forward);
                        }
                        edit.after = Some(l);
                    },
                    None => {
                        edit.after = None;
                        result = Err(GraphError::InvalidOperation);
                    },
                }
            },
            GraphOp::SetEdgeOrder { .. } => {},
        }
        if is_node {
            edits.nodes.insert(id, edit);
        } else {
            edits.edges.insert(id, edit);
        }
        result
    }

    /// Rebase a history diff into local operations. Each touched lifecycle is
    /// replayed on a copy; creations are replayed as creates (nodes first), and
    /// the net change of every other lifecycle becomes one restore of the deletes
    /// it lifted and one fresh delete if it gained any, never a replay of the
    /// diff's own operation identities. Order deltas become order writes where
    /// they change the current key. `remap` maps the diff's identities to this
    /// graph's (identities it does not list map to themselves).
    #[verifier::spinoff_prover]
    #[verifier::rlimit(60)]
    pub fn local_diff_ops(&self, diff: &GraphDiff, remap: &IdMap<ID>) -> (r: Result<Vec<GraphOp>, GraphError>)
        requires
            self.wf(),
            diff.wf(),
            remap.wf(),
        ensures
            r is Ok ==> forall|i: int| 0 <= i < diff.ops@.len() ==> op_valid((#[trigger] diff.ops@[i]).op, diff.ops@[i].id),
            r matches Ok(plan) ==> forall|q: int| 0 <= q < plan@.len() ==> planned_from(self@, remap@, *diff, #[trigger] plan@[q]),
            r matches Ok(plan) ==> forall|x: ID, is_node: bool|
                #![trigger edit_fold(self@, remap@, diff.ops@, diff.ops@.len() as int, x, is_node)]
                edit_fold(self@, remap@, diff.ops@, diff.ops@.len() as int, x, is_node) is Some && (has_delete(plan@, 0, x, is_node)
                    <==> wants_delete(edit_fold(self@, remap@, diff.ops@, diff.ops@.len() as int, x, is_node)->Some_0))
                    && (has_restore(plan@, 0, x, is_node) <==> wants_restore(
                    edit_fold(self@, remap@, diff.ops@, diff.ops@.len() as int, x, is_node)->Some_0,
                )) && (forall|q: int|
                    0 <= q < plan@.len() && restores_obj(#[trigger] plan@[q], x, is_node) ==> restore_lifts(
                        plan@[q],
                        edit_fold(self@, remap@, diff.ops@, diff.ops@.len() as int, x, is_node)->Some_0,
                    )) && (has_create(plan@, x, is_node) <==> (edit_fold(self@, remap@, diff.ops@, diff.ops@.len() as int, x, is_node)->Some_0.1 is Some
                    && edit_fold(self@, remap@, diff.ops@, diff.ops@.len() as int, x, is_node)->Some_0.2)),
            // success is owed, unless allocating keys for copied edges fails
            diff_applies(self@, remap@, *diff) ==> (r is Ok || r matches Err(GraphError::Order(_))),
            // without jitter, and with room for the gap keys, a plannable diff is planned
            diff_applies(self@, remap@, *diff) && plan_room(self@, self.jitter(), *diff) ==> r is Ok,
            (exists|i: int| 0 <= i < diff.ops@.len() && !op_valid((#[trigger] diff.ops@[i]).op, diff.ops@[i].id))
                ==> r == Err::<Vec<GraphOp>, GraphError>(GraphError::InvalidOperation),
            // an empty diff plans nothing
            diff.ops@.len() == 0 && diff.orders@.dom().is_empty() ==> (r matches Ok(plan) && plan@.len() == 0),
            // without copied edges, order writes carry exactly the keys the deltas end at
            // no object is deleted twice or restored twice, and restores name their tags ascending
            r matches Ok(plan) ==> no_twins(plan@, 0) && forall|q: int| 0 <= q < plan@.len() ==> restore_sorted(#[trigger] plan@[q]),
            r matches Ok(plan) ==> (creates_no_edge(diff.ops@) ==> forall|q: int|
                0 <= q < plan@.len() && #[trigger] plan@[q] is SetEdgeOrder ==> (plan@[q] matches GraphOp::SetEdgeOrder { id, position }
                    && diff.orders@.contains_key(id.spec_id()) && diff.orders@[id.spec_id()].after is Some
                    && position@ == diff.orders@[id.spec_id()].after->0.position@
                    && self@.edges.contains_key(remapped(remap@, id.spec_id()))
                    && crate::register::winner_value(self@.edges[remapped(remap@, id.spec_id())].orders).0 != position@)),
            // each edge gets at most one order write
            r matches Ok(plan) ==> (creates_no_edge(diff.ops@) ==> forall|q1: int, q2: int|
                0 <= q1 < q2 < plan@.len() && #[trigger] plan@[q1] is SetEdgeOrder && #[trigger] plan@[q2] is SetEdgeOrder ==> (plan@[q1] matches GraphOp::SetEdgeOrder { id: i1, .. }
                    && plan@[q2] matches GraphOp::SetEdgeOrder { id: i2, .. } && i1 != i2)),
            r matches Ok(plan) ==> (creates_no_edge(diff.ops@) ==> forall|k: ID|
                #[trigger] order_write_due(self@, remap@, *diff, k) ==> exists|q: int|
                    0 <= q < plan@.len() && (#[trigger] plan@[q] matches GraphOp::SetEdgeOrder { id, position }
                        && id.spec_id() == k && position@ == diff.orders@[k].after->0.position@)),
    {
        let ghost trivial = diff.ops@.len() == 0 && diff.orders@.dom().is_empty();
        proof {
            diff.orders.lemma_view();
            if trivial && diff.orders.entries@.len() > 0 {
                assert(diff.orders@.contains_key(diff.orders.entries@[0].0));
            }
        }
        let mut edits = Edits { nodes: IdMap::new(), edges: IdMap::new() };
        let mut i: usize = 0;
        while i < diff.ops.len()
            invariant
                trivial == (diff.ops@.len() == 0 && diff.orders@.dom().is_empty()),
                trivial ==> edits.nodes.entries@.len() == 0 && edits.edges.entries@.len() == 0 && diff.orders.entries@.len() == 0,
                edits.nodes.entries@.len() + edits.edges.entries@.len() <= i,
                self.wf(),
                edits.wf(),
                remap.wf(),
                i <= diff.ops@.len(),
                forall|j: int| 0 <= j < i ==> op_valid((#[trigger] diff.ops@[j]).op, diff.ops@[j].id),
                edits_ok(self@, remap@, diff.ops@, edits),
                forall|x: ID| #[trigger] edits.nodes@.contains_key(x) ==> edit_fold(self@, remap@, diff.ops@, i as int, x, true) == Some(edit_view(edits.nodes@[x])),
                forall|x: ID| #[trigger] edits.edges@.contains_key(x) ==> edit_fold(self@, remap@, diff.ops@, i as int, x, false) == Some(edit_view(edits.edges@[x])),
                forall|x: ID| !edits.nodes@.contains_key(x) ==> #[trigger] edit_fold(self@, remap@, diff.ops@, i as int, x, true) == Some(edit_start(self@, remap@, x, true)),
                forall|x: ID| !edits.edges@.contains_key(x) ==> #[trigger] edit_fold(self@, remap@, diff.ops@, i as int, x, false) == Some(edit_start(self@, remap@, x, false)),
            decreases diff.ops@.len() - i,
        {
            let ghost e0 = edits;
            let change = &diff.ops[i];
            if let Err(e) = change.op.validate(change.id) {
                proof { assert(!op_valid(diff.ops@[i as int].op, diff.ops@[i as int].id)); }
                return Err(e);
            }
            // Order edits use the net delta, not the operations.
            if !matches!(change.op, GraphOp::SetEdgeOrder { .. }) {
                if let Err(e) = self.edit_change(&mut edits, change, remap, Ghost(diff.ops@), Ghost(i as int)) {
                    proof {
                        let c = diff.ops@[i as int];
                        let x0 = op_object(c.op);
                        let s0 = op_is_node(c.op);
                        if s0 {
                            if e0.nodes@.contains_key(x0) {
                                assert(edit_fold(self@, remap@, diff.ops@, i as int, x0, true) == Some(edit_view(e0.nodes@[x0])));
                            } else {
                                assert(edit_fold(self@, remap@, diff.ops@, i as int, x0, true) == Some(edit_start(self@, remap@, x0, true)));
                            }
                        } else {
                            if e0.edges@.contains_key(x0) {
                                assert(edit_fold(self@, remap@, diff.ops@, i as int, x0, false) == Some(edit_view(e0.edges@[x0])));
                            } else {
                                assert(edit_fold(self@, remap@, diff.ops@, i as int, x0, false) == Some(edit_start(self@, remap@, x0, false)));
                            }
                        }
                        assert(about(c, x0, s0));
                        assert(edit_fold(self@, remap@, diff.ops@, i + 1, x0, s0) is None);
                        lemma_fold_fails(self@, remap@, diff.ops@, i + 1, diff.ops@.len() as int, x0, s0);
                        assert(!diff_applies(self@, remap@, *diff));
                    }
                    return Err(e);
                }
            }
            proof {
                let c = diff.ops@[i as int];
                let x0 = op_object(c.op);
                let s0 = op_is_node(c.op);
                assert forall|x: ID, sort: bool| #![trigger edit_fold(self@, remap@, diff.ops@, i + 1, x, sort)]
                    edit_fold(self@, remap@, diff.ops@, i + 1, x, sort) == (if about(c, x, sort) {
                        edit_step(edit_fold(self@, remap@, diff.ops@, i as int, x, sort)->Some_0, c)
                    } else {
                        edit_fold(self@, remap@, diff.ops@, i as int, x, sort)
                    }) by {
                    if sort {
                        if !e0.nodes@.contains_key(x) {
                            assert(edit_fold(self@, remap@, diff.ops@, i as int, x, true) == Some(edit_start(self@, remap@, x, true)));
                        } else {
                            assert(edit_fold(self@, remap@, diff.ops@, i as int, x, true) == Some(edit_view(e0.nodes@[x])));
                        }
                    } else {
                        if !e0.edges@.contains_key(x) {
                            assert(edit_fold(self@, remap@, diff.ops@, i as int, x, false) == Some(edit_start(self@, remap@, x, false)));
                        } else {
                            assert(edit_fold(self@, remap@, diff.ops@, i as int, x, false) == Some(edit_view(e0.edges@[x])));
                        }
                    }
                }
                assert forall|x: ID| #[trigger] edits.nodes@.contains_key(x) implies edit_fold(self@, remap@, diff.ops@, i + 1, x, true) == Some(edit_view(edits.nodes@[x])) by {
                    let prev = if e0.nodes@.contains_key(x) { edit_view(e0.nodes@[x]) } else { edit_start(self@, remap@, x, true) };
                    if e0.nodes@.contains_key(x) {
                        assert(edit_fold(self@, remap@, diff.ops@, i as int, x, true) == Some(edit_view(e0.nodes@[x])));
                    } else {
                        assert(edit_fold(self@, remap@, diff.ops@, i as int, x, true) == Some(edit_start(self@, remap@, x, true)));
                    }
                    assert(edit_fold(self@, remap@, diff.ops@, i as int, x, true) == Some(prev));
                    if about(c, x, true) {
                        assert(x == x0 && s0 == true);
                        assert(!(c.op is SetEdgeOrder));
                        assert(edits.nodes@.contains_key(x0) && Some(edit_view(edits.nodes@[x0])) == edit_step(prev, c));
                    } else if c.op is SetEdgeOrder {
                        assert(edits.nodes@ == e0.nodes@);
                    } else if s0 == true {
                        assert(x != x0);
                        assert(edits.nodes@[x] == e0.nodes@[x]);
                    } else {
                        assert(edits.nodes@ == e0.nodes@);
                    }
                }
                assert forall|x: ID| #[trigger] edits.edges@.contains_key(x) implies edit_fold(self@, remap@, diff.ops@, i + 1, x, false) == Some(edit_view(edits.edges@[x])) by {
                    let prev = if e0.edges@.contains_key(x) { edit_view(e0.edges@[x]) } else { edit_start(self@, remap@, x, false) };
                    if e0.edges@.contains_key(x) {
                        assert(edit_fold(self@, remap@, diff.ops@, i as int, x, false) == Some(edit_view(e0.edges@[x])));
                    } else {
                        assert(edit_fold(self@, remap@, diff.ops@, i as int, x, false) == Some(edit_start(self@, remap@, x, false)));
                    }
                    assert(edit_fold(self@, remap@, diff.ops@, i as int, x, false) == Some(prev));
                    if about(c, x, false) {
                        assert(x == x0 && s0 == false);
                        assert(!(c.op is SetEdgeOrder));
                        assert(edits.edges@.contains_key(x0) && Some(edit_view(edits.edges@[x0])) == edit_step(prev, c));
                    } else if c.op is SetEdgeOrder {
                        assert(edits.edges@ == e0.edges@);
                    } else if s0 == false {
                        assert(x != x0);
                        assert(edits.edges@[x] == e0.edges@[x]);
                    } else {
                        assert(edits.edges@ == e0.edges@);
                    }
                }
                assert forall|x: ID| !edits.nodes@.contains_key(x) implies #[trigger] edit_fold(self@, remap@, diff.ops@, i + 1, x, true) == Some(edit_start(self@, remap@, x, true)) by {
                    assert(!e0.nodes@.contains_key(x));
                    assert(edit_fold(self@, remap@, diff.ops@, i as int, x, true) == Some(edit_start(self@, remap@, x, true)));
                }
                assert forall|x: ID| !edits.edges@.contains_key(x) implies #[trigger] edit_fold(self@, remap@, diff.ops@, i + 1, x, false) == Some(edit_start(self@, remap@, x, false)) by {
                    assert(!e0.edges@.contains_key(x));
                    assert(edit_fold(self@, remap@, diff.ops@, i as int, x, false) == Some(edit_start(self@, remap@, x, false)));
                }
            }
            i += 1;
        }
        // Creations: nodes before edges, endpoints checked before any write.
        let mut creates: Vec<GraphOp> = Vec::new();
        let mut pass: usize = 0;
        let ghost mut nk: int = 0;
        let ghost mut ek: int = 0;
        while pass < 2
            invariant
                self.wf(),
                edits.wf(),
                remap.wf(),
                diff.wf(),
                edits_ok(self@, remap@, diff.ops@, edits),
                forall|q: int| 0 <= q < creates@.len() ==> created_by(diff.ops@, #[trigger] creates@[q]),
                pass <= 2,
                creates@.len() <= nk + ek,
                edits.nodes.entries@.len() + edits.edges.entries@.len() <= diff.ops@.len(),
                plan_room(self@, self.jitter(), *diff) ==> forall|q: int| 0 <= q < creates@.len() ==> (#[trigger] creates@[q] matches GraphOp::CreateEdge { position, .. }
                    ==> position@.len() + diff.ops@.len() + self@.edges.dom().len() <= crate::position::MAX_GRAPH_POSITION_BYTES),
                trivial == (diff.ops@.len() == 0 && diff.orders@.dom().is_empty()),
                trivial ==> edits.nodes.entries@.len() == 0 && edits.edges.entries@.len() == 0 && diff.orders.entries@.len() == 0
                    && creates@.len() == 0,
                pass == 0 ==> nk == 0 && ek == 0,
                pass >= 1 ==> nk == edits.nodes.entries@.len(),
                pass == 1 ==> ek == 0,
                pass == 2 ==> ek == edits.edges.entries@.len(),
                forall|q: int| 0 <= q < creates@.len() ==> creates_node_edit(#[trigger] creates@[q], edits) || creates_edge_edit(creates@[q], edits),
                forall|j: int| 0 <= j < nk && edit_creates(#[trigger] edits.nodes.entries@[j].1) ==> has_create(creates@, edits.nodes.keys()[j], true),
                forall|j: int| 0 <= j < ek && edit_creates(#[trigger] edits.edges.entries@[j].1) ==> has_create(creates@, edits.edges.keys()[j], false),
            decreases 2 - pass,
        {
            let is_node = pass == 0;
            let list = if is_node { &edits.nodes } else { &edits.edges };
            let mut k: usize = 0;
            while k < list.len()
                invariant
                    self.wf(),
                    edits.wf(),
                    remap.wf(),
                    diff.wf(),
                    list.wf(),
                    forall|x: ID| #[trigger] list@.contains_key(x) ==> list@[x].wf(),
                    k <= list.entries@.len(),
                    creates@.len() <= nk + ek,
                    edits.nodes.entries@.len() + edits.edges.entries@.len() <= diff.ops@.len(),
                    plan_room(self@, self.jitter(), *diff) ==> forall|q: int| 0 <= q < creates@.len() ==> (#[trigger] creates@[q] matches GraphOp::CreateEdge { position, .. }
                        ==> position@.len() + diff.ops@.len() + self@.edges.dom().len() <= crate::position::MAX_GRAPH_POSITION_BYTES),
                    trivial == (diff.ops@.len() == 0 && diff.orders@.dom().is_empty()),
                trivial ==> edits.nodes.entries@.len() == 0 && edits.edges.entries@.len() == 0 && diff.orders.entries@.len() == 0
                        && creates@.len() == 0,
                    edits_ok(self@, remap@, diff.ops@, edits),
                    is_node ==> *list == edits.nodes,
                    !is_node ==> *list == edits.edges,
                    forall|q: int| 0 <= q < creates@.len() ==> created_by(diff.ops@, #[trigger] creates@[q]),
                    pass < 2,
                    is_node <==> pass == 0,
                    is_node ==> nk == k && ek == 0,
                    !is_node ==> nk == edits.nodes.entries@.len() && ek == k,
                    forall|q: int| 0 <= q < creates@.len() ==> creates_node_edit(#[trigger] creates@[q], edits) || creates_edge_edit(creates@[q], edits),
                    forall|j: int| 0 <= j < nk && edit_creates(#[trigger] edits.nodes.entries@[j].1) ==> has_create(creates@, edits.nodes.keys()[j], true),
                    forall|j: int| 0 <= j < ek && edit_creates(#[trigger] edits.edges.entries@[j].1) ==> has_create(creates@, edits.edges.keys()[j], false),
                decreases list.entries@.len() - k,
            {
                let ghost c_before = creates@;
                proof {
                    list.lemma_at(k as int);
                }
                let edit = list.value_at(k);
                if edit.after.is_some() {
                    match &edit.create {
                        Some(op) => {
                            match op {
                                GraphOp::CreateEdge { source, target, .. } => {
                                    let s_ok = self.has_node(remap_id(remap, source.id())) || match edits.nodes.get(source.id()) {
                                        Some(e) => e.after.is_some(),
                                        None => false,
                                    };
                                    let t_ok = self.has_node(remap_id(remap, target.id())) || match edits.nodes.get(target.id()) {
                                        Some(e) => e.after.is_some(),
                                        None => false,
                                    };
                                    if !s_ok || !t_ok {
                                        proof {
                                            let key = list.keys()[k as int];
                                            assert(list@.contains_key(key) && list@[key] == *edit);
                                            assert(created_by(diff.ops@, *op));
                                            let j = choose|j: int| 0 <= j < diff.ops@.len() && (#[trigger] diff.ops@[j]).forward && recreates(diff.ops@[j].op, *op);
                                            assert(!diff_applies(self@, remap@, *diff));
                                        }
                                        return Err(GraphError::InvalidOperation);
                                    }
                                },
                                _ => {},
                            }
                            let ghost key = list.keys()[k as int];
                            proof {
                                assert(list@.contains_key(key) && list@[key] == *edit);
                                assert(created_by(diff.ops@, *op));
                            }
                            let op2 = copy_op(op);
                            let op3 = match op2 {
                                GraphOp::CreateEdge { id, source, target, position } => {
                                    let p = match diff.orders.get(id.id()) {
                                        Some(delta) => match &delta.after {
                                            Some(after) => after.position.clone(),
                                            None => position,
                                        },
                                        None => position,
                                    };
                                    GraphOp::CreateEdge { id, source, target, position: p }
                                },
                                other => other,
                            };
                            proof {
                                let j = choose|j: int| 0 <= j < diff.ops@.len() && (#[trigger] diff.ops@[j]).forward && recreates(diff.ops@[j].op, *op);
                                assert(recreates(diff.ops@[j].op, op3));
                            }
                            proof {
                                assert(list@.contains_key(key) && list@[key] == *edit);
                                assert(key_from(diff.ops@, *op));
                            }
                            let ghost before_push = creates@;
                            creates.push(op3);
                            proof {
                                assert forall|q: int| 0 <= q < creates@.len() implies created_by(diff.ops@, #[trigger] creates@[q]) by {
                                    if q < before_push.len() {
                                        assert(creates@[q] == before_push[q]);
                                    }
                                }
                                assert(edit_ok(self@, remap@, diff.ops@, key, *edit, is_node));
                                assert(creates_obj(op3, key, is_node));
                                assert(edit_creates(*edit));
                                assert forall|q: int| 0 <= q < creates@.len() implies creates_node_edit(#[trigger] creates@[q], edits) || creates_edge_edit(creates@[q], edits) by {
                                    if q < before_push.len() {
                                        assert(creates@[q] == before_push[q]);
                                    } else if is_node {
                                        assert(edits.nodes@.contains_key(key));
                                    } else {
                                        assert(edits.edges@.contains_key(key));
                                    }
                                }
                            }
                        },
                        None => {},
                    }
                }
                proof {
                    let last = creates@.len() as int - 1;
                    assert forall|j: int| 0 <= j < nk && edit_creates(#[trigger] edits.nodes.entries@[j].1) implies has_create(creates@, edits.nodes.keys()[j], true) by {
                        let x = edits.nodes.keys()[j];
                        let q = choose|q: int| 0 <= q < c_before.len() && creates_obj(c_before[q], x, true);
                        assert(creates@[q] == c_before[q]);
                    }
                    assert forall|j: int| 0 <= j < ek && edit_creates(#[trigger] edits.edges.entries@[j].1) implies has_create(creates@, edits.edges.keys()[j], false) by {
                        let x = edits.edges.keys()[j];
                        let q = choose|q: int| 0 <= q < c_before.len() && creates_obj(c_before[q], x, false);
                        assert(creates@[q] == c_before[q]);
                    }
                    if edit_creates(*edit) {
                        assert(creates@.len() == c_before.len() + 1);
                        assert(creates_obj(creates@[last], list.keys()[k as int], is_node));
                        assert(has_create(creates@, list.keys()[k as int], is_node));
                    }
                    if is_node {
                        nk = nk + 1;
                    } else {
                        ek = ek + 1;
                    }
                }
                k += 1;
            }
            pass += 1;
        }
        proof {
            edits.nodes.lemma_view();
            edits.edges.lemma_view();
            assert forall|x: ID| #[trigger] edits.nodes@.contains_key(x) && edit_creates(edits.nodes@[x]) implies has_create(creates@, x, true) by {
                let j = choose|j: int| 0 <= j < edits.nodes.entries@.len() && edits.nodes.entries@[j].0 == x;
                edits.nodes.lemma_at(j);
            }
            assert forall|x: ID| #[trigger] edits.edges@.contains_key(x) && edit_creates(edits.edges@[x]) implies has_create(creates@, x, false) by {
                let j = choose|j: int| 0 <= j < edits.edges.entries@.len() && edits.edges.entries@[j].0 == x;
                edits.edges.lemma_at(j);
            }
        }
        // Order deltas, keyed by this graph's identity of the edge.
        let mut orders: IdMap<(GraphEdgeId, GraphPosition)> = IdMap::new();
        let mut k: usize = 0;
        while k < diff.orders.len()
            invariant
                self.wf(),
                edits.wf(),
                remap.wf(),
                diff.wf(),
                orders.wf(),
                k <= diff.orders.entries@.len(),
                trivial == (diff.ops@.len() == 0 && diff.orders@.dom().is_empty()),
                trivial ==> edits.nodes.entries@.len() == 0 && edits.edges.entries@.len() == 0 && diff.orders.entries@.len() == 0
                    && creates@.len() == 0 && orders@ == Map::<ID, (GraphEdgeId, GraphPosition)>::empty(),
                forall|x: ID| #[trigger] orders@.contains_key(x) ==> diff.orders@.contains_key(orders@[x].0.spec_id()),
                forall|x: ID| #[trigger] orders@.contains_key(x) ==> diff.orders@[orders@[x].0.spec_id()].after is Some
                    && orders@[x].1@ == diff.orders@[orders@[x].0.spec_id()].after->0.position@
                    && remapped(remap@, orders@[x].0.spec_id()) == x,
                forall|x: ID| #[trigger] edits.edges@.contains_key(x) ==> edit_fold(self@, remap@, diff.ops@, diff.ops@.len() as int, x, false) == Some(edit_view(edits.edges@[x])),
                forall|x: ID| !edits.edges@.contains_key(x) ==> #[trigger] edit_fold(self@, remap@, diff.ops@, diff.ops@.len() as int, x, false) == Some(edit_start(self@, remap@, x, false)),
                forall|j: int| 0 <= j < k && #[trigger] order_write_due(self@, remap@, *diff, diff.orders.keys()[j]) ==> orders@.contains_key(remapped(remap@, diff.orders.keys()[j]))
                    && orders@[remapped(remap@, diff.orders.keys()[j])].0.spec_id() == diff.orders.keys()[j],
            decreases diff.orders.entries@.len() - k,
        {
            proof {
                diff.orders.lemma_at(k as int);
            }
            let id = diff.orders.key_at(k);
            let delta = diff.orders.value_at(k);
            k += 1;
            let after = match &delta.after {
                Some(a) => a,
                None => {
                    continue;
                },
            };
            let unchanged = match &delta.before {
                Some(b) => b.position.same(&after.position),
                None => false,
            };
            if unchanged {
                continue;
            }
            // Creation already carries the final key; a retracted creation is a
            // lifecycle edit, never a key write to an absent edge.
            let skip = match edits.edges.get(id) {
                Some(edit) => edit.create.is_some() || edit.after.is_none(),
                None => false,
            };
            if skip {
                continue;
            }
            let current = remap_id(remap, id);
            proof {
                assert(diff.orders@.contains_key(id) && diff.orders@[id] == *delta);
            }
            let source = match self.edge_life(current) {
                Some((_, s, _)) => s,
                None => {
                    proof { assert(!diff_applies(self@, remap@, *diff)); }
                    return Err(GraphError::InvalidOperation);
                },
            };
            if source.id() != remap_id(remap, delta.source.id()) {
                proof { assert(!diff_applies(self@, remap@, *diff)); }
                return Err(GraphError::InvalidOperation);
            }
            let now = match self.order_value(current) {
                Some(v) => v.position,
                None => {
                    proof { assert(!diff_applies(self@, remap@, *diff)); }
                    return Err(GraphError::InvalidOperation);
                },
            };
            let ghost o0 = orders@;
            if !now.same(&after.position) {
                orders.insert(current, (GraphEdgeId::from_id(id), after.position.clone()));
            }
            proof {
                assert forall|j: int| 0 <= j < k && #[trigger] order_write_due(self@, remap@, *diff, diff.orders.keys()[j]) implies orders@.contains_key(remapped(remap@, diff.orders.keys()[j]))
                    && orders@[remapped(remap@, diff.orders.keys()[j])].0.spec_id() == diff.orders.keys()[j] by {
                    let kj = diff.orders.keys()[j];
                    if j < k - 1 {
                        diff.orders.lemma_at(j);
                        assert(kj != id) by {
                            assert(crate::idmap::sorted_ids(diff.orders.keys()));
                            assert(id_lt(diff.orders.keys()[j], diff.orders.keys()[k - 1]));
                        }
                        assert(remapped(remap@, id) != remapped(remap@, kj));
                    } else {
                        assert(kj == id);
                    }
                }
            }
        }
        let ghost creates0 = creates@;
        let ghost orders0 = orders@;
        proof {
            if creates_no_edge(diff.ops@) {
                assert forall|q: int| 0 <= q < creates@.len() implies !(#[trigger] creates@[q] is CreateEdge) by {
                    assert(created_by(diff.ops@, creates@[q]));
                    let j = choose|j: int| 0 <= j < diff.ops@.len() && (#[trigger] diff.ops@[j]).forward && recreates(diff.ops@[j].op, creates@[q]);
                }
            }
        }
        if let Err(e) = self.plan_copied_edge_order(&edits, remap, &mut creates, &mut orders) {
            return Err(e);
        }
        proof {
            assert forall|q: int| 0 <= q < creates@.len() implies planned_from(self@, remap@, *diff, #[trigger] creates@[q]) by {
                assert(created_by(diff.ops@, creates0[q]));
                assert(same_creation(creates0[q], creates@[q]));
                let j = choose|j: int| 0 <= j < diff.ops@.len() && (#[trigger] diff.ops@[j]).forward && recreates(diff.ops@[j].op, creates0[q]);
                assert(recreates(diff.ops@[j].op, creates@[q]));
            }
            assert forall|q: int| 0 <= q < creates@.len() implies creates_node_edit(#[trigger] creates@[q], edits) || creates_edge_edit(creates@[q], edits) by {
                assert(same_creation(creates0[q], creates@[q]));
                if creates_node_edit(creates0[q], edits) {
                    let y = choose|y: ID| #[trigger] edits.nodes@.contains_key(y) && creates_obj(creates0[q], y, true) && edit_creates(edits.nodes@[y]);
                    assert(creates_obj(creates@[q], y, true));
                } else {
                    let y = choose|y: ID| #[trigger] edits.edges@.contains_key(y) && creates_obj(creates0[q], y, false) && edit_creates(edits.edges@[y]);
                    assert(creates_obj(creates@[q], y, false));
                }
            }
            assert forall|x: ID| #[trigger] edits.nodes@.contains_key(x) && edit_creates(edits.nodes@[x]) implies has_create(creates@, x, true) by {
                let q = choose|q: int| 0 <= q < creates0.len() && creates_obj(creates0[q], x, true);
                assert(same_creation(creates0[q], creates@[q]));
                assert(creates_obj(creates@[q], x, true));
            }
            assert forall|x: ID| #[trigger] edits.edges@.contains_key(x) && edit_creates(edits.edges@[x]) implies has_create(creates@, x, false) by {
                let q = choose|q: int| 0 <= q < creates0.len() && creates_obj(creates0[q], x, false);
                assert(same_creation(creates0[q], creates@[q]));
                assert(creates_obj(creates@[q], x, false));
            }
        }
        // Net lifecycle edits.
        proof {
            assert forall|q: int| 0 <= q < creates@.len() implies (#[trigger] creates@[q] is CreateNode || creates@[q] is CreateEdge) by {
                assert(created_by(diff.ops@, creates0[q]));
                let j = choose|j: int| 0 <= j < diff.ops@.len() && (#[trigger] diff.ops@[j]).forward && recreates(diff.ops@[j].op, creates0[q]);
                assert(same_creation(creates0[q], creates@[q]));
            }
        }
        proof {
            if trivial {
                assert(edits.nodes@ =~= Map::<ID, Edit>::empty());
                assert(edits.edges@ =~= Map::<ID, Edit>::empty());
            }
        }
        let mut result = creates;
        let ghost c0 = result@.len() as int;
        match push_lifecycle_ops(&mut result, &edits.nodes, true) {
            Ok(()) => {},
            Err(e) => {
                proof {
                    let x = choose|x: ID| #[trigger] edits.nodes@.contains_key(x) && edit_broken(edit_view(edits.nodes@[x]));
                    assert(edit_fold(self@, remap@, diff.ops@, diff.ops@.len() as int, x, true) == Some(edit_view(edits.nodes@[x])));
                    assert(!diff_applies(self@, remap@, *diff));
                }
                return Err(e);
            },
        }
        let ghost p1 = result@;
        match push_lifecycle_ops(&mut result, &edits.edges, false) {
            Ok(()) => {},
            Err(e) => {
                proof {
                    let x = choose|x: ID| #[trigger] edits.edges@.contains_key(x) && edit_broken(edit_view(edits.edges@[x]));
                    assert(edit_fold(self@, remap@, diff.ops@, diff.ops@.len() as int, x, false) == Some(edit_view(edits.edges@[x])));
                    assert(!diff_applies(self@, remap@, *diff));
                }
                return Err(e);
            },
        }
        let ghost p2 = result@;
        proof {
            if trivial {
                if p1.len() > c0 {
                    assert(owned_by(p1[c0], edits.nodes, true));
                }
                if p2.len() > p1.len() {
                    assert(owned_by(p2[p1.len() as int], edits.edges, false));
                }
                assert(p2.len() == 0);
                assert(orders@.dom() =~= Set::<ID>::empty());
            }
        }
        proof {
            assert forall|q: int| 0 <= q < result@.len() implies planned_from(self@, remap@, *diff, #[trigger] result@[q]) by {
                if q < c0 {
                    assert(result@[q] == p1[q]);
                    assert(planned_from(self@, remap@, *diff, creates@[q]));
                } else {
                    let sort = q < p1.len();
                    let list = if sort { edits.nodes } else { edits.edges };
                    if sort {
                        assert(result@[q] == p1[q]);
                        assert(owned_by(p1[q], edits.nodes, true));
                    } else {
                        assert(owned_by(result@[q], edits.edges, false));
                    }
                    assert(owned_by(result@[q], list, sort));
                    let x = choose|x: ID|
                        #[trigger] list@.contains_key(x) && lifecycle_about(result@[q], x, sort) && restore_lifts(result@[q], edit_view(list@[x]));
                    assert(edit_ok(self@, remap@, diff.ops@, x, list@[x], sort));
                    if restores_obj(result@[q], x, sort) {
                        let e = edit_view(list@[x]);
                        match result@[q] {
                            GraphOp::RestoreNode { id, deletes } => {
                                assert forall|i: int| 0 <= i < deletes@.len() implies is_active_tag(current_life(self@, remap@, id.spec_id(), true)->Some_0, #[trigger] deletes@[i]) by {
                                    assert(deletes@.contains(deletes@[i]));
                                    assert(lifted(e, deletes@[i]));
                                }
                            },
                            GraphOp::RestoreEdge { id, deletes } => {
                                assert forall|i: int| 0 <= i < deletes@.len() implies is_active_tag(current_life(self@, remap@, id.spec_id(), false)->Some_0, #[trigger] deletes@[i]) by {
                                    assert(deletes@.contains(deletes@[i]));
                                    assert(lifted(e, deletes@[i]));
                                }
                            },
                            _ => {},
                        }
                    }
                }
            }
        }
        // Order writes that still change the current key.
        let ghost rb = result@;
        self.push_order_writes(&orders, &mut result);
        proof {
            assert forall|q: int| 0 <= q < result@.len() implies planned_from(self@, remap@, *diff, #[trigger] result@[q]) by {
                if q < rb.len() {
                    assert(result@[q] == rb[q]);
                } else {
                    let x = choose|x: ID| #[trigger] orders@.contains_key(x) && order_write_of(self@, orders@, x, result@[q]);
                }
            }
            assert forall|q: int| 0 <= q < p2.len() implies result@[q] == p2[q] by {
                assert(result@[q] == rb[q]);
            }
            assert forall|q: int| p2.len() <= q < result@.len() implies (#[trigger] result@[q]) is SetEdgeOrder by {
                if q >= rb.len() {
                    let x = choose|x: ID| #[trigger] orders@.contains_key(x) && order_write_of(self@, orders@, x, result@[q]);
                }
            }
            if trivial {
                assert(result@.len() == p2.len());
            }
            if creates_no_edge(diff.ops@) {
                assert(ids_injective(orders@)) by {
                    assert forall|x1: ID, x2: ID| orders@.contains_key(x1) && orders@.contains_key(x2) && #[trigger] orders@[x1].0 == #[trigger] orders@[x2].0 implies x1 == x2 by {
                        assert(remapped(remap@, orders@[x1].0.spec_id()) == x1);
                        assert(remapped(remap@, orders@[x2].0.spec_id()) == x2);
                    }
                }
                assert forall|q1: int, q2: int| p2.len() <= q1 < q2 < result@.len() implies (#[trigger] result@[q1] matches GraphOp::SetEdgeOrder { id: i1, .. }
                    && #[trigger] result@[q2] matches GraphOp::SetEdgeOrder { id: i2, .. } && i1 != i2) by {
                    let x1 = choose|x1: ID| #[trigger] orders@.contains_key(x1) && order_write_of(self@, orders@, x1, result@[q1]);
                    let x2 = choose|x2: ID| #[trigger] orders@.contains_key(x2) && order_write_of(self@, orders@, x2, result@[q2]);
                    assert(x1 != x2);
                }
            }
        }
        proof {
            if creates_no_edge(diff.ops@) {
                assert forall|q: int| 0 <= q < result@.len() && #[trigger] result@[q] is SetEdgeOrder implies (result@[q] matches GraphOp::SetEdgeOrder { id, position }
                    && diff.orders@.contains_key(id.spec_id()) && diff.orders@[id.spec_id()].after is Some
                    && position@ == diff.orders@[id.spec_id()].after->0.position@) by {
                    if q < creates@.len() {
                        assert(result@[q] == p1[q]);
                        assert(planned_from(self@, remap@, *diff, creates@[q]));
                        assert(created_by(diff.ops@, creates@[q]));
                    } else if q < p1.len() {
                        assert(result@[q] == p1[q]);
                        assert(owned_by(p1[q], edits.nodes, true));
                    } else if q < p2.len() {
                        assert(result@[q] == p2[q]);
                        assert(owned_by(p2[q], edits.edges, false));
                    }
                }
                orders.lemma_view();
                assert forall|kk: ID| #[trigger] order_write_due(self@, remap@, *diff, kk) implies exists|q: int|
                    0 <= q < result@.len() && (#[trigger] result@[q] matches GraphOp::SetEdgeOrder { id, position }
                        && id.spec_id() == kk && position@ == diff.orders@[kk].after->0.position@) by {
                    let x = remapped(remap@, kk);
                    diff.orders.lemma_view();
                    let j = choose|j: int| 0 <= j < diff.orders.entries@.len() && diff.orders.entries@[j].0 == kk;
                    assert(diff.orders.keys()[j] == kk);
                    assert(order_write_due(self@, remap@, *diff, diff.orders.keys()[j]));
                    assert(orders0.contains_key(x) && orders0[x].0.spec_id() == kk);
                    assert(orders@.contains_key(x));
                    let jj = choose|jj: int| 0 <= jj < orders.entries@.len() && orders.entries@[jj].0 == x;
                    assert(orders.keys()[jj] == x);
                    let q = choose|q: int| p2.len() <= q < result@.len() && (#[trigger] result@[q] matches GraphOp::SetEdgeOrder { id, position }
                        && id == orders@[x].0 && position@ == orders@[x].1@);
                }
            }
        }
        proof {
            lemma_plan_lifecycle(self@, remap@, diff.ops@, edits, creates@, p1, p2, result@);
            assert forall|q: int| creates@.len() <= q < result@.len() implies !(#[trigger] result@[q] is CreateNode) && !(result@[q] is CreateEdge) by {
                if q < p1.len() {
                    assert(result@[q] == p1[q]);
                    assert(owned_by(p1[q], edits.nodes, true));
                } else if q < p2.len() {
                    assert(result@[q] == p2[q]);
                    assert(owned_by(p2[q], edits.edges, false));
                }
            }
            lemma_plan_creations(self@, remap@, diff.ops@, edits, creates@, result@);
            let c0i = creates@.len() as int;
            assert forall|q: int| 0 <= q < result@.len() implies (#[trigger] result@[q] is CreateNode || result@[q] is CreateEdge) && q < c0i
                || (result@[q] is DeleteNode || result@[q] is RestoreNode) && c0i <= q < p1.len()
                || (result@[q] is DeleteEdge || result@[q] is RestoreEdge) && p1.len() <= q < p2.len()
                || result@[q] is SetEdgeOrder && p2.len() <= q by {
                if q < c0i {
                    assert(result@[q] == p1[q]);
                    assert(p1[q] == creates@[q]);
                } else if q < p1.len() {
                    assert(result@[q] == p1[q]);
                    assert(owned_by(p1[q], edits.nodes, true));
                } else if q < p2.len() {
                    assert(result@[q] == p2[q]);
                    assert(owned_by(p2[q], edits.edges, false));
                }
            }
            assert forall|q1: int, q2: int| 0 <= q1 < q2 < result@.len() implies !lifecycle_twins(#[trigger] result@[q1], #[trigger] result@[q2]) by {
                if c0i <= q1 && q2 < p1.len() {
                    assert(result@[q1] == p1[q1] && result@[q2] == p1[q2]);
                } else if p1.len() <= q1 && q2 < p2.len() {
                    assert(result@[q1] == p2[q1] && result@[q2] == p2[q2]);
                }
            }
            assert forall|q: int| 0 <= q < result@.len() implies restore_sorted(#[trigger] result@[q]) by {
                if c0i <= q < p1.len() {
                    assert(result@[q] == p1[q]);
                } else if p1.len() <= q < p2.len() {
                    assert(result@[q] == p2[q]);
                }
            }
        }
        Ok(result)
    }
}

} // verus!
