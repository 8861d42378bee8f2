//! Visible outgoing edges of one source, ordered by fractional key, then edge identity.
use vstd::prelude::*;
use crate::ids::{ID, GraphEdgeId, GraphNodeId, id_lt, id_less};
use crate::position::{GraphPosition, lex_lt, lemma_lex_transitive, lemma_lex_asymmetric, lemma_lex_total};

verus! {

/// Strict order of index entries: position, then edge identity.
pub open spec fn entry_lt(a: (Seq<u8>, ID), b: (Seq<u8>, ID)) -> bool {
    lex_lt(a.0, b.0) || (a.0 == b.0 && id_lt(a.1, b.1))
}

pub proof fn lemma_entry_transitive(a: (Seq<u8>, ID), b: (Seq<u8>, ID), c: (Seq<u8>, ID))
    requires
        entry_lt(a, b),
        entry_lt(b, c),
    ensures
        entry_lt(a, c),
{
    if lex_lt(a.0, b.0) && lex_lt(b.0, c.0) {
        lemma_lex_transitive(a.0, b.0, c.0);
    }
}

pub proof fn lemma_entry_asymmetric(a: (Seq<u8>, ID), b: (Seq<u8>, ID))
    requires
        entry_lt(a, b),
    ensures
        !entry_lt(b, a),
        a != b,
{
    if lex_lt(a.0, b.0) {
        lemma_lex_asymmetric(a.0, b.0);
    }
}

pub proof fn lemma_entry_total(a: (Seq<u8>, ID), b: (Seq<u8>, ID))
    requires
        a != b,
    ensures
        entry_lt(a, b) || entry_lt(b, a),
{
    if a.0 != b.0 {
        lemma_lex_total(a.0, b.0);
    }
}


/// Two strictly sorted sequences with the same elements are equal.
pub proof fn lemma_sorted_unique(a: Seq<(Seq<u8>, ID)>, b: Seq<(Seq<u8>, ID)>)
    requires
        sorted_entries(a),
        sorted_entries(b),
        forall|x: (Seq<u8>, ID)| a.contains(x) <==> b.contains(x),
    ensures
        a == b,
    decreases a.len(),
{
    if a.len() == 0 {
        if b.len() > 0 {
            assert(b.contains(b[0]));
        }
        assert(b =~= a);
    } else {
        assert(a.contains(a[0]));
        let j = choose|j: int| 0 <= j < b.len() && b[j] == a[0];
        assert(b.contains(b[0]));
        let k = choose|k: int| 0 <= k < a.len() && a[k] == b[0];
        if j > 0 {
            assert(entry_lt(b[0], b[j]));
            if k > 0 {
                assert(entry_lt(a[0], a[k]));
                lemma_entry_asymmetric(a[0], b[0]);
            } else {
                lemma_entry_asymmetric(b[0], b[j]);
            }
        }
        assert(a[0] == b[0]);
        let a1 = a.subrange(1, a.len() as int);
        let b1 = b.subrange(1, b.len() as int);
        assert forall|x: (Seq<u8>, ID)| a1.contains(x) <==> b1.contains(x) by {
            if a1.contains(x) {
                let i = choose|i: int| 0 <= i < a1.len() && a1[i] == x;
                assert(a[i + 1] == x);
                assert(entry_lt(a[0], a[i + 1]));
                lemma_entry_asymmetric(a[0], x);
                assert(a.contains(x));
                let m = choose|m: int| 0 <= m < b.len() && b[m] == x;
                assert(m != 0);
                assert(b1[m - 1] == x);
            }
            if b1.contains(x) {
                let i = choose|i: int| 0 <= i < b1.len() && b1[i] == x;
                assert(b[i + 1] == x);
                assert(entry_lt(b[0], b[i + 1]));
                lemma_entry_asymmetric(b[0], x);
                assert(b.contains(x));
                let m = choose|m: int| 0 <= m < a.len() && a[m] == x;
                assert(m != 0);
                assert(a1[m - 1] == x);
            }
        }
        assert(sorted_entries(a1)) by {
            assert forall|p: int, q: int| 0 <= p < q < a1.len() implies entry_lt(#[trigger] a1[p], #[trigger] a1[q]) by {
                assert(entry_lt(a[p + 1], a[q + 1]));
            }
        }
        assert(sorted_entries(b1)) by {
            assert forall|p: int, q: int| 0 <= p < q < b1.len() implies entry_lt(#[trigger] b1[p], #[trigger] b1[q]) by {
                assert(entry_lt(b[p + 1], b[q + 1]));
            }
        }
        lemma_sorted_unique(a1, b1);
        assert(a =~= seq![a[0]] + a1);
        assert(b =~= seq![b[0]] + b1);
    }
}

pub open spec fn sorted_entries(s: Seq<(Seq<u8>, ID)>) -> bool {
    forall|i: int, j: int| 0 <= i < j < s.len() ==> entry_lt(#[trigger] s[i], #[trigger] s[j])
}


/// Where a reorder places an edge among its source's visible out-edges.
#[derive(Debug, Clone, Copy, PartialEq, Eq, Structural)]
pub enum GraphOrderTarget {
    Start,
    End,
    Before(GraphEdgeId),
    After(GraphEdgeId),
}

/// What a reorder wrote: whether the edge moved, and how many neighbouring edges
/// received auxiliary position writes.
#[derive(Debug, Clone, Copy, PartialEq, Eq, Structural)]
pub struct GraphReorderOutcome {
    pub changed: bool,
    pub auxiliary_updates: usize,
}

/// A visible out-edge with its target and winning position.
#[derive(Debug, Clone, PartialEq, Eq)]
pub struct OrderedGraphEdge {
    pub edge_id: GraphEdgeId,
    pub target: GraphNodeId,
    pub position: GraphPosition,
}

/// The visible out-edges of one source, sorted by `(position, edge id)`.
pub struct OrderIndex {
    pub entries: Vec<(GraphPosition, GraphEdgeId)>,
}

impl View for OrderIndex {
    type V = Seq<(Seq<u8>, ID)>;

    open spec fn view(&self) -> Seq<(Seq<u8>, ID)> {
        Seq::new(self.entries@.len(), |i: int| (self.entries@[i].0@, self.entries@[i].1.spec_id()))
    }
}

pub open spec fn index_has(s: Seq<(Seq<u8>, ID)>, e: ID) -> bool {
    exists|i: int| 0 <= i < s.len() && #[trigger] s[i].1 == e
}

impl OrderIndex {
    pub open spec fn wf(&self) -> bool {
        &&& sorted_entries(self@)
        &&& forall|i: int| 0 <= i < self.entries@.len() ==> (#[trigger] self.entries@[i]).0.wf()
        &&& forall|i: int, j: int| 0 <= i < j < self@.len() ==> (#[trigger] self@[i]).1 != (#[trigger] self@[j]).1
    }

    pub fn new() -> (r: OrderIndex)
        ensures
            r.wf(),
            r@.len() == 0,
    {
        OrderIndex { entries: Vec::new() }
    }

    pub fn len(&self) -> (r: usize)
        ensures
            r == self@.len(),
    {
        self.entries.len()
    }

    /// The edge at a rank.
    pub fn at(&self, index: usize) -> (r: Option<GraphEdgeId>)
        ensures
            index < self@.len() ==> (r matches Some(e) && e.spec_id() == self@[index as int].1),
            index >= self@.len() ==> r is None,
    {
        if index < self.entries.len() {
            Some(self.entries[index].1)
        } else {
            None
        }
    }

    /// The rank of an edge.
    pub fn rank(&self, id: GraphEdgeId) -> (r: Option<usize>)
        requires
            self.wf(),
        ensures
            match r {
                Some(i) => i < self@.len() && self@[i as int].1 == id.spec_id(),
                None => !index_has(self@, id.spec_id()),
            },
    {
        let mut i: usize = 0;
        while i < self.entries.len()
            invariant
                i <= self@.len(),
                forall|j: int| 0 <= j < i ==> self@[j].1 != id.spec_id(),
            decreases self@.len() - i,
        {
            if self.entries[i].1 == id {
                return Some(i);
            }
            i += 1;
        }
        None
    }

    /// Edge identities in order.
    pub fn ids(&self) -> (r: Vec<GraphEdgeId>)
        ensures
            r@.len() == self@.len(),
            forall|i: int| 0 <= i < r@.len() ==> (#[trigger] r@[i]).spec_id() == self@[i].1,
    {
        let mut r: Vec<GraphEdgeId> = Vec::new();
        let mut i: usize = 0;
        while i < self.entries.len()
            invariant
                i <= self@.len(),
                r@.len() == i,
                forall|j: int| 0 <= j < i ==> (#[trigger] r@[j]).spec_id() == self@[j].1,
            decreases self@.len() - i,
        {
            r.push(self.entries[i].1);
            i += 1;
        }
        r
    }

    /// Remove an edge's entry, if any.
    pub fn remove(&mut self, id: GraphEdgeId)
        requires
            old(self).wf(),
        ensures
            final(self).wf(),
            forall|x: (Seq<u8>, ID)| final(self)@.contains(x) <==> (old(self)@.contains(x) && x.1 != id.spec_id()),
    {
        let ghost old_v = self@;
        match self.rank(id) {
            Some(i) => {
                self.entries.remove(i);
                proof {
                    assert(self@ =~= old_v.remove(i as int));
                    assert forall|x: (Seq<u8>, ID)| self@.contains(x) <==> (old_v.contains(x) && x.1 != id.spec_id()) by {
                        if self@.contains(x) {
                            let j = choose|j: int| 0 <= j < self@.len() && self@[j] == x;
                            if j < i {
                                assert(old_v[j] == x);
                            } else {
                                assert(old_v[j + 1] == x);
                            }
                        }
                        if old_v.contains(x) && x.1 != id.spec_id() {
                            let j = choose|j: int| 0 <= j < old_v.len() && old_v[j] == x;
                            assert(j != i);
                            if j < i {
                                assert(self@[j] == x);
                            } else {
                                assert(self@[j - 1] == x);
                            }
                        }
                    }
                    assert forall|a: int, b: int| 0 <= a < b < self@.len() implies entry_lt(#[trigger] self@[a], #[trigger] self@[b]) by {
                        if b < i {
                        } else if a < i {
                            assert(entry_lt(old_v[a], old_v[b + 1]));
                        } else {
                            assert(entry_lt(old_v[a + 1], old_v[b + 1]));
                        }
                    }
                    assert forall|a: int, b: int| 0 <= a < b < self@.len() implies (#[trigger] self@[a]).1 != (#[trigger] self@[b]).1 by {
                        if b < i {
                        } else if a < i {
                            assert(old_v[a].1 != old_v[b + 1].1);
                        } else {
                            assert(old_v[a + 1].1 != old_v[b + 1].1);
                        }
                    }
                }
            },
            None => {
                proof {
                    assert forall|x: (Seq<u8>, ID)| self@.contains(x) implies x.1 != id.spec_id() by {
                        let j = choose|j: int| 0 <= j < self@.len() && self@[j] == x;
                    }
                }
            },
        }
    }

    /// Insert or move an edge's entry to a position.
    pub fn insert(&mut self, position: GraphPosition, id: GraphEdgeId)
        requires
            old(self).wf(),
            position.wf(),
        ensures
            final(self).wf(),
            forall|x: (Seq<u8>, ID)| final(self)@.contains(x) <==> ((old(self)@.contains(x) && x.1 != id.spec_id()) || x == (position@, id.spec_id())),
    {
        self.remove(id);
        let ghost mid = self@;
        let ghost key = (position@, id.spec_id());
        let mut i: usize = 0;
        while i < self.entries.len()
            invariant
                self.wf(),
                self@ == mid,
                key == (position@, id.spec_id()),
                i <= self@.len(),
                forall|j: int| 0 <= j < i ==> entry_lt(self@[j], key),
                forall|x: (Seq<u8>, ID)| mid.contains(x) ==> x.1 != id.spec_id(),
            ensures
                i <= self@.len(),
                forall|j: int| 0 <= j < i ==> entry_lt(self@[j], key),
                i < self@.len() ==> !entry_lt(self@[i as int], key),
            decreases self@.len() - i,
        {
            let e = &self.entries[i];
            assert(self@[i as int] == (e.0@, e.1.spec_id()));
            let lt = e.0.less(&position);
            let eq = e.0.same(&position);
            let idl = id_less(e.1.id(), id.id());
            let before = lt || (eq && idl);
            assert(before == entry_lt(self@[i as int], key));
            if !before {
                break;
            }
            i += 1;
        }
        proof {
            if i < self@.len() {
                assert(self@[i as int] != key) by {
                    assert(mid.contains(self@[i as int]));
                }
                lemma_entry_total(self@[i as int], key);
            }
        }
        self.entries.insert(i, (position, id));
        proof {
            assert(self@ =~= mid.insert(i as int, key));
            assert forall|a: int, b: int| 0 <= a < b < self@.len() implies entry_lt(#[trigger] self@[a], #[trigger] self@[b]) by {
                if b < i {
                } else if b == i {
                } else if a < i {
                    lemma_entry_transitive(mid[a], key, mid[i as int]);
                    if b - 1 > i {
                        lemma_entry_transitive(mid[a], mid[i as int], mid[b - 1]);
                    }
                } else if a == i {
                    if b - 1 > i {
                        lemma_entry_transitive(key, mid[i as int], mid[b - 1]);
                    }
                } else {
                    assert(entry_lt(mid[a - 1], mid[b - 1]));
                }
            }
            assert forall|a: int, b: int| 0 <= a < b < self@.len() implies (#[trigger] self@[a]).1 != (#[trigger] self@[b]).1 by {
                if a == i {
                    assert(mid.contains(mid[b - 1]));
                } else if b == i {
                    assert(mid.contains(mid[a]));
                } else if a < i && b < i {
                } else if a < i {
                    assert(mid[a].1 != mid[b - 1].1);
                } else {
                    assert(mid[a - 1].1 != mid[b - 1].1);
                }
            }
            assert forall|x: (Seq<u8>, ID)| self@.contains(x) <==> (mid.contains(x) || x == key) by {
                if self@.contains(x) {
                    let j = choose|j: int| 0 <= j < self@.len() && self@[j] == x;
                    if j < i {
                        assert(mid[j] == x);
                    } else if j > i {
                        assert(mid[j - 1] == x);
                    }
                }
                if mid.contains(x) {
                    let j = choose|j: int| 0 <= j < mid.len() && mid[j] == x;
                    if j < i {
                        assert(self@[j] == x);
                    } else {
                        assert(self@[j + 1] == x);
                    }
                }
                if x == key {
                    assert(self@[i as int] == x);
                }
            }
        }
    }
}

} // verus!
