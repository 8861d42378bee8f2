//! Remove-wins lifecycle of one node or edge: delete tags and restores that name them.
use vstd::prelude::*;
use crate::ids::{ID, id_lt};
use crate::idmap::{IdMap, sorted_ids};

verus! {

/// The mathematical content of a lifecycle.
pub struct LifeView {
    pub created_at: u32,
    /// Delete operations by identity, with their Lamport clocks.
    pub deletes: Map<ID, u32>,
    /// Restore operations by identity, with their Lamport clocks and the delete tags they name.
    pub restores: Map<ID, (u32, Seq<ID>)>,
}

/// Some restore names delete tag `t`.
pub open spec fn restored(restores: Map<ID, (u32, Seq<ID>)>, t: ID) -> bool {
    exists|r: ID| #[trigger] restores.contains_key(r) && restores[r].1.contains(t)
}

/// Number of restores that name delete tag `t`.
pub open spec fn restore_count(restores: Map<ID, (u32, Seq<ID>)>, t: ID) -> nat {
    restores.dom().filter(|r: ID| restores[r].1.contains(t)).len()
}

/// Alive: every delete tag is named by some restore.
pub open spec fn life_alive(v: LifeView) -> bool {
    forall|t: ID| #[trigger] v.deletes.contains_key(t) ==> restored(v.restores, t)
}

pub open spec fn in_prefix(keys: Seq<ID>, i: int, x: ID) -> bool {
    exists|k: int| 0 <= k < i && #[trigger] keys[k] == x
}

/// Delete tags that no restore names.
pub open spec fn is_active_tag(v: LifeView, t: ID) -> bool {
    v.deletes.contains_key(t) && !restored(v.restores, t)
}

pub open spec fn spec_delete(v: LifeView, id: ID, lamport: u32, forward: bool) -> LifeView {
    LifeView {
        deletes: if forward { v.deletes.insert(id, lamport) } else { v.deletes.remove(id) },
        ..v
    }
}

pub open spec fn spec_restore(
    v: LifeView,
    id: ID,
    lamport: u32,
    tags: Seq<ID>,
    forward: bool,
) -> LifeView {
    LifeView {
        restores: if forward { v.restores.insert(id, (lamport, tags)) } else { v.restores.remove(id) },
        ..v
    }
}

pub open spec fn counts_match(removed: Map<ID, usize>, restores: Map<ID, (u32, Seq<ID>)>) -> bool {
    &&& forall|t: ID| #[trigger] removed.contains_key(t) ==> removed[t] == restore_count(restores, t)
    &&& forall|t: ID| #[trigger] restore_count(restores, t) > 0 ==> removed.contains_key(t)
    &&& forall|t: ID| #[trigger] removed.contains_key(t) ==> restore_count(restores, t) > 0
}

pub proof fn lemma_count_positive(m: Map<ID, (u32, Seq<ID>)>, t: ID)
    requires
        m.dom().finite(),
    ensures
        restore_count(m, t) > 0 <==> restored(m, t),
{
    let f = |r: ID| m[r].1.contains(t);
    let s = m.dom().filter(f);
    m.dom().lemma_len_filter(f);
    if restored(m, t) {
        let r = choose|r: ID| #[trigger] m.contains_key(r) && m[r].1.contains(t);
        assert(s.contains(r));
        vstd::set_lib::lemma_set_empty_equivalency_len(s);
    }
    if restore_count(m, t) > 0 {
        if !restored(m, t) {
            assert(s =~= Set::<ID>::empty());
        }
    }
}

pub proof fn lemma_count_insert(m: Map<ID, (u32, Seq<ID>)>, r: ID, v: (u32, Seq<ID>), t: ID)
    requires
        m.dom().finite(),
        !m.contains_key(r),
    ensures
        restore_count(m.insert(r, v), t) == restore_count(m, t) + (if v.1.contains(t) { 1nat } else { 0nat }),
{
    let m2 = m.insert(r, v);
    let s1 = m.dom().filter(|x: ID| m[x].1.contains(t));
    let s2 = m2.dom().filter(|x: ID| m2[x].1.contains(t));
    m.dom().lemma_len_filter(|x: ID| m[x].1.contains(t));
    if v.1.contains(t) {
        assert(s2 =~= s1.insert(r));
    } else {
        assert(s2 =~= s1);
    }
}

pub proof fn lemma_count_remove(m: Map<ID, (u32, Seq<ID>)>, r: ID, t: ID)
    requires
        m.dom().finite(),
        m.contains_key(r),
    ensures
        restore_count(m, t) == restore_count(m.remove(r), t) + (if m[r].1.contains(t) { 1nat } else { 0nat }),
{
    let m2 = m.remove(r);
    let s1 = m.dom().filter(|x: ID| m[x].1.contains(t));
    let s2 = m2.dom().filter(|x: ID| m2[x].1.contains(t));
    m2.dom().lemma_len_filter(|x: ID| m2[x].1.contains(t));
    if m[r].1.contains(t) {
        assert(s1 =~= s2.insert(r));
    } else {
        assert(s2 =~= s1);
    }
}

pub proof fn lemma_count_bound(m: Map<ID, (u32, Seq<ID>)>, t: ID)
    requires
        m.dom().finite(),
    ensures
        restore_count(m, t) <= m.dom().len(),
{
    m.dom().lemma_len_filter(|x: ID| m[x].1.contains(t));
}

/// The exec lifecycle record. `removed` caches how many restores name each delete tag.
pub struct Life {
    pub created_at: u32,
    pub deletes: IdMap<u32>,
    pub restores: IdMap<(u32, Vec<ID>)>,
    pub removed: IdMap<usize>,
}

pub open spec fn restores_view(m: Map<ID, (u32, Vec<ID>)>) -> Map<ID, (u32, Seq<ID>)> {
    m.map_values(|v: (u32, Vec<ID>)| (v.0, v.1@))
}

impl View for Life {
    type V = LifeView;

    open spec fn view(&self) -> LifeView {
        LifeView {
            created_at: self.created_at,
            deletes: self.deletes@,
            restores: restores_view(self.restores@),
        }
    }
}

/// Whether `t` occurs among the first `i` tags.
fn listed_before(tags: &Vec<ID>, i: usize, t: ID) -> (r: bool)
    requires
        i <= tags@.len(),
    ensures
        r == tags@.subrange(0, i as int).contains(t),
{
    let mut k: usize = 0;
    while k < i
        invariant
            i <= tags@.len(),
            k <= i,
            forall|j: int| 0 <= j < k ==> tags@[j] != t,
        decreases i - k,
    {
        if tags[k] == t {
            proof { assert(tags@.subrange(0, i as int)[k as int] == t); }
            return true;
        }
        k += 1;
    }
    proof {
        if tags@.subrange(0, i as int).contains(t) {
            let j = choose|j: int| 0 <= j < i && tags@.subrange(0, i as int)[j] == t;
            assert(tags@[j] == t);
        }
    }
    false
}

impl Life {
    pub open spec fn wf(&self) -> bool {
        &&& self.deletes.wf()
        &&& self.restores.wf()
        &&& self.removed.wf()
        &&& counts_match(self.removed@, self@.restores)
    }

    pub fn new(created_at: u32) -> (r: Life)
        ensures
            r.wf(),
            r@ == (LifeView { created_at, deletes: Map::empty(), restores: Map::empty() }),
    {
        let r = Life {
            created_at,
            deletes: IdMap::new(),
            restores: IdMap::new(),
            removed: IdMap::new(),
        };
        proof {
            assert(r@.restores =~= Map::<ID, (u32, Seq<ID>)>::empty());
            assert forall|t: ID| #[trigger] restore_count(r@.restores, t) > 0 implies r.removed@.contains_key(t) by {
                assert(r@.restores.dom() =~= Set::<ID>::empty());
                assert(r@.restores.dom().filter(|x: ID| r@.restores[x].1.contains(t)) =~= Set::<ID>::empty());
            }
        }
        r
    }

    pub proof fn lemma_finite(&self)
        requires
            self.wf(),
        ensures
            self@.restores.dom().finite(),
            self@.restores.dom().len() == self.restores.entries@.len(),
            self@.deletes.dom().finite(),
    {
        self.restores.lemma_view();
        self.deletes.lemma_view();
        assert(self@.restores.dom() =~= self.restores@.dom());
    }

    /// Alive: every delete tag is named by some restore.
    pub fn alive(&self) -> (r: bool)
        requires
            self.wf(),
        ensures
            r == life_alive(self@),
    {
        proof {
            self.lemma_finite();
            self.deletes.lemma_view();
        }
        let mut i: usize = 0;
        while i < self.deletes.len()
            invariant
                self.wf(),
                self@.restores.dom().finite(),
                i <= self.deletes.entries@.len(),
                forall|j: int| 0 <= j < i ==> restored(self@.restores, #[trigger] self.deletes.keys()[j]),
            decreases self.deletes.entries@.len() - i,
        {
            let t = self.deletes.key_at(i);
            if !self.removed.contains_key(t) {
                proof {
                    self.deletes.lemma_at(i as int);
                    lemma_count_positive(self@.restores, t);
                    assert(self@.deletes.contains_key(t));
                    assert(!restored(self@.restores, t));
                }
                return false;
            }
            proof {
                lemma_count_positive(self@.restores, t);
            }
            i += 1;
        }
        proof {
            self.deletes.lemma_view();
            assert forall|t: ID| #[trigger] self@.deletes.contains_key(t) implies restored(self@.restores, t) by {
                let j = choose|j: int| 0 <= j < self.deletes.entries@.len() && self.deletes.entries@[j].0 == t;
                assert(self.deletes.keys()[j] == t);
            }
        }
        true
    }

    /// Delete tags not named by any restore, ascending.
    pub fn active(&self) -> (r: Vec<ID>)
        requires
            self.wf(),
        ensures
            sorted_ids(r@),
            forall|t: ID| r@.contains(t) <==> is_active_tag(self@, t),
    {
        proof {
            self.lemma_finite();
            self.deletes.lemma_view();
        }
        let mut out: Vec<ID> = Vec::new();
        let mut i: usize = 0;
        while i < self.deletes.len()
            invariant
                self.wf(),
                self@.restores.dom().finite(),
                i <= self.deletes.entries@.len(),
                sorted_ids(out@),
                forall|j: int| 0 <= j < out@.len() ==> in_prefix(self.deletes.keys(), i as int, #[trigger] out@[j]),
                forall|t: ID| out@.contains(t) <==> (exists|k: int| 0 <= k < i && #[trigger] self.deletes.keys()[k] == t && !restored(self@.restores, t)),
            decreases self.deletes.entries@.len() - i,
        {
            let t = self.deletes.key_at(i);
            let keep = !self.removed.contains_key(t);
            proof { lemma_count_positive(self@.restores, t); }
            if keep {
                let ghost before = out@;
                out.push(t);
                proof {
                    assert forall|a: int, b: int| 0 <= a < b < out@.len() implies id_lt(out@[a], out@[b]) by {
                        if b == out@.len() - 1 {
                            assert(in_prefix(self.deletes.keys(), i as int, before[a]));
                            let k = choose|k: int| 0 <= k < i && #[trigger] self.deletes.keys()[k] == before[a];
                            assert(id_lt(self.deletes.keys()[k], self.deletes.keys()[i as int]));
                        }
                    }
                    assert forall|j: int| 0 <= j < out@.len() implies in_prefix(self.deletes.keys(), i + 1, #[trigger] out@[j]) by {
                        if j < before.len() {
                            assert(in_prefix(self.deletes.keys(), i as int, before[j]));
                            let k = choose|k: int| 0 <= k < i && #[trigger] self.deletes.keys()[k] == before[j];
                            assert(self.deletes.keys()[k] == out@[j]);
                        } else {
                            assert(self.deletes.keys()[i as int] == out@[j]);
                        }
                    }
                    assert forall|x: ID| out@.contains(x) <==> (exists|k: int| 0 <= k < i + 1 && #[trigger] self.deletes.keys()[k] == x && !restored(self@.restores, x)) by {
                        if out@.contains(x) {
                            let j = choose|j: int| 0 <= j < out@.len() && out@[j] == x;
                            if j < before.len() {
                                assert(before.contains(x));
                            } else {
                                assert(self.deletes.keys()[i as int] == x);
                            }
                        }
                        if exists|k: int| 0 <= k < i + 1 && #[trigger] self.deletes.keys()[k] == x && !restored(self@.restores, x) {
                            let k = choose|k: int| 0 <= k < i + 1 && #[trigger] self.deletes.keys()[k] == x && !restored(self@.restores, x);
                            if k < i {
                                assert(before.contains(x));
                                let j = choose|j: int| 0 <= j < before.len() && before[j] == x;
                                assert(out@[j] == x);
                            } else {
                                assert(out@[out@.len() - 1] == x);
                            }
                        }
                    }
                }
            } else {
                proof {
                    assert forall|x: ID| out@.contains(x) <==> (exists|k: int| 0 <= k < i + 1 && #[trigger] self.deletes.keys()[k] == x && !restored(self@.restores, x)) by {
                        if exists|k: int| 0 <= k < i + 1 && #[trigger] self.deletes.keys()[k] == x && !restored(self@.restores, x) {
                            let k = choose|k: int| 0 <= k < i + 1 && #[trigger] self.deletes.keys()[k] == x && !restored(self@.restores, x);
                            if k == i {
                                assert(self.deletes.keys()[i as int] == t);
                            }
                        }
                    }
                    assert forall|j: int| 0 <= j < out@.len() implies in_prefix(self.deletes.keys(), i + 1, #[trigger] out@[j]) by {
                        assert(in_prefix(self.deletes.keys(), i as int, out@[j]));
                        let k = choose|k: int| 0 <= k < i && #[trigger] self.deletes.keys()[k] == out@[j];
                        assert(self.deletes.keys()[k] == out@[j]);
                    }
                }
            }
            i += 1;
        }
        proof {
            assert forall|t: ID| out@.contains(t) <==> is_active_tag(self@, t) by {
                if is_active_tag(self@, t) {
                    let j = choose|j: int| 0 <= j < self.deletes.entries@.len() && self.deletes.entries@[j].0 == t;
                    assert(self.deletes.keys()[j] == t);
                }
                if out@.contains(t) {
                    let k = choose|k: int| 0 <= k < i && #[trigger] self.deletes.keys()[k] == t && !restored(self@.restores, t);
                    self.deletes.lemma_at(k);
                }
            }
        }
        out
    }

    /// Add (forward) or retract (backward) a delete tag.
    pub fn delete(&mut self, id: ID, lamport: u32, forward: bool)
        requires
            old(self).wf(),
        ensures
            final(self).wf(),
            final(self)@ == spec_delete(old(self)@, id, lamport, forward),
    {
        if forward {
            self.deletes.insert(id, lamport);
        } else {
            self.deletes.remove(id);
        }
    }

    /// Add (forward) or retract (backward) a restore naming delete tags. A forward
    /// restore that reuses a restore identity replaces the earlier one, and the
    /// tags it lifts are then those of the new restore only: applying the same
    /// restore twice leaves the life as one application did, and a reused
    /// identity with other tags lifts those tags and no longer the earlier ones
    /// (the lifted tags are always exactly those the stored restores name).
    pub fn restore(&mut self, id: ID, lamport: u32, tags: &Vec<ID>, forward: bool)
        requires
            old(self).wf(),
        ensures
            final(self).wf(),
            final(self)@ == spec_restore(old(self)@, id, lamport, tags@, forward),
    {
        let ghost v = self@;
        if forward && self.restores.contains_key(id) {
            self.restore_once(id, lamport, tags, false);
        }
        self.restore_once(id, lamport, tags, forward);
        proof {
            assert(self@.restores =~= spec_restore(v, id, lamport, tags@, forward).restores);
        }
    }

    fn restore_once(&mut self, id: ID, lamport: u32, tags: &Vec<ID>, forward: bool)
        requires
            old(self).wf(),
            forward && old(self)@.restores.contains_key(id) ==> old(self)@.restores[id].1 == tags@,
        ensures
            final(self).wf(),
            final(self)@ == spec_restore(old(self)@, id, lamport, tags@, forward),
    {
        let ghost old_view = self@;
        proof { self.lemma_finite(); }
        if forward {
            let copy = copy_ids(tags);
            let prev = self.restores.insert(id, (lamport, copy));
            proof {
                assert(self@.restores =~= old_view.restores.insert(id, (lamport, tags@)));
            }
            if prev.is_none() {
                let ghost m0 = old_view.restores;
                let ghost m1 = self@.restores;
                proof {
                    self.restores.lemma_view();
                    assert(m1.dom() =~= self.restores@.dom());
                }
                let cap = self.restores.len();
                let mut i: usize = 0;
                while i < tags.len()
                    invariant
                        self.deletes.wf(),
                        self.restores.wf(),
                        self.removed.wf(),
                        self@.restores == m1,
                        self@.deletes == old_view.deletes,
                        self.created_at == old_view.created_at,
                        m1 == m0.insert(id, (lamport, tags@)),
                        !m0.contains_key(id),
                        m0.dom().finite(),
                        m1.dom().len() == cap,
                        m1.dom().finite(),
                        i <= tags@.len(),
                        forall|t: ID| #[trigger] self.removed@.contains_key(t) ==> self.removed@[t] == restore_count(m0, t) + (if tags@.subrange(0, i as int).contains(t) { 1nat } else { 0nat }),
                        forall|t: ID| #[trigger] self.removed@.contains_key(t) <==> restore_count(m0, t) + (if tags@.subrange(0, i as int).contains(t) { 1nat } else { 0nat }) > 0,
                    decreases tags@.len() - i,
                {
                    let t = tags[i];
                    proof {
                        lemma_count_insert(m0, id, (lamport, tags@), t);
                        lemma_count_bound(m1, t);
                        assert(tags@.contains(t)) by {
                            assert(tags@[i as int] == t);
                        }
                    }
                    // A tag named twice is counted once.
                    if !listed_before(tags, i, t) {
                        let n: usize = match self.removed.get(t) {
                            Some(c) => *c,
                            None => 0,
                        };
                        self.removed.insert(t, n + 1);
                    }
                    proof {
                        assert forall|x: ID| tags@.subrange(0, i + 1).contains(x) == (tags@.subrange(0, i as int).contains(x) || x == t) by {
                            if tags@.subrange(0, i + 1).contains(x) {
                                let j = choose|j: int| 0 <= j < i + 1 && #[trigger] tags@.subrange(0, i + 1)[j] == x;
                                if j < i {
                                    assert(tags@.subrange(0, i as int)[j] == x);
                                }
                            }
                            if tags@.subrange(0, i as int).contains(x) {
                                let j = choose|j: int| 0 <= j < i && #[trigger] tags@.subrange(0, i as int)[j] == x;
                                assert(tags@.subrange(0, i + 1)[j] == x);
                            }
                            if x == t {
                                assert(tags@.subrange(0, i + 1)[i as int] == x);
                            }
                        }
                    }
                    i += 1;
                }
                proof {
                    assert(tags@.subrange(0, tags@.len() as int) =~= tags@);
                    assert forall|t: ID| #[trigger] self.removed@.contains_key(t) implies self.removed@[t] == restore_count(m1, t) by {
                        lemma_count_insert(m0, id, (lamport, tags@), t);
                    }
                    assert forall|t: ID| #[trigger] restore_count(m1, t) > 0 implies self.removed@.contains_key(t) by {
                        lemma_count_insert(m0, id, (lamport, tags@), t);
                    }
                    assert forall|t: ID| #[trigger] self.removed@.contains_key(t) implies restore_count(m1, t) > 0 by {
                        lemma_count_insert(m0, id, (lamport, tags@), t);
                    }
                }
            } else {
                proof {
                    assert(old_view.restores.insert(id, (lamport, tags@)).dom() =~= old_view.restores.dom());
                    assert forall|t: ID| #[trigger] restore_count(self@.restores, t) == restore_count(old_view.restores, t) by {
                        assert(self@.restores.dom().filter(|x: ID| self@.restores[x].1.contains(t)) =~= old_view.restores.dom().filter(|x: ID| old_view.restores[x].1.contains(t)));
                    }
                }
            }
        } else {
            let prev = self.restores.remove(id);
            proof {
                assert(self@.restores =~= old_view.restores.remove(id));
            }
            match prev {
                None => {
                    proof {
                        assert(old_view.restores.remove(id) =~= old_view.restores);
                    }
                },
                Some((_, gone)) => {
                    let ghost m0 = old_view.restores;
                    let ghost m1 = self@.restores;
                    proof {
                        assert(m0[id].1 == gone@);
                    }
                    let mut i: usize = 0;
                    while i < gone.len()
                        invariant
                            self.deletes.wf(),
                            self.restores.wf(),
                            self.removed.wf(),
                            self@.restores == m1,
                            self@.deletes == old_view.deletes,
                            self.created_at == old_view.created_at,
                            m1 == m0.remove(id),
                            m0.contains_key(id),
                            m0[id].1 == gone@,
                            m0.dom().finite(),
                            i <= gone@.len(),
                            forall|t: ID| #[trigger] self.removed@.contains_key(t) ==> self.removed@[t] + (if gone@.subrange(0, i as int).contains(t) { 1nat } else { 0nat }) == restore_count(m0, t),
                            forall|t: ID| #[trigger] self.removed@.contains_key(t) <==> restore_count(m0, t) - (if gone@.subrange(0, i as int).contains(t) { 1int } else { 0int }) > 0,
                        decreases gone@.len() - i,
                    {
                        let t = gone[i];
                        proof {
                            lemma_count_remove(m0, id, t);
                            assert(gone@.contains(t)) by {
                                assert(gone@[i as int] == t);
                            }
                        }
                        if !listed_before(&gone, i, t) {
                            let n: usize = match self.removed.get(t) {
                                Some(c) => *c,
                                None => 1,
                            };
                            if n <= 1 {
                                self.removed.remove(t);
                            } else {
                                self.removed.insert(t, n - 1);
                            }
                        }
                        proof {
                            assert forall|x: ID| gone@.subrange(0, i + 1).contains(x) == (gone@.subrange(0, i as int).contains(x) || x == t) by {
                                if gone@.subrange(0, i + 1).contains(x) {
                                    let j = choose|j: int| 0 <= j < i + 1 && #[trigger] gone@.subrange(0, i + 1)[j] == x;
                                    if j < i {
                                        assert(gone@.subrange(0, i as int)[j] == x);
                                    }
                                }
                                if gone@.subrange(0, i as int).contains(x) {
                                    let j = choose|j: int| 0 <= j < i && #[trigger] gone@.subrange(0, i as int)[j] == x;
                                    assert(gone@.subrange(0, i + 1)[j] == x);
                                }
                                if x == t {
                                    assert(gone@.subrange(0, i + 1)[i as int] == x);
                                }
                            }
                        }
                        i += 1;
                    }
                    proof {
                        assert(gone@.subrange(0, gone@.len() as int) =~= gone@);
                        assert forall|t: ID| #[trigger] self.removed@.contains_key(t) implies self.removed@[t] == restore_count(m1, t) by {
                            lemma_count_remove(m0, id, t);
                        }
                        assert forall|t: ID| #[trigger] restore_count(m1, t) > 0 implies self.removed@.contains_key(t) by {
                            lemma_count_remove(m0, id, t);
                        }
                        assert forall|t: ID| #[trigger] self.removed@.contains_key(t) implies restore_count(m1, t) > 0 by {
                            lemma_count_remove(m0, id, t);
                        }
                    }
                },
            }
        }
    }
}

impl Life {
    /// An independent copy.
    pub fn duplicate(&self) -> (r: Life)
        requires
            self.wf(),
        ensures
            r.wf(),
            r@ == self@,
    {
        let mut deletes: Vec<(ID, u32)> = Vec::new();
        let mut i: usize = 0;
        while i < self.deletes.entries.len()
            invariant
                i <= self.deletes.entries@.len(),
                deletes@ == self.deletes.entries@.subrange(0, i as int),
            decreases self.deletes.entries@.len() - i,
        {
            deletes.push(self.deletes.entries[i]);
            i += 1;
            assert(deletes@ =~= self.deletes.entries@.subrange(0, i as int));
        }
        assert(deletes@ =~= self.deletes.entries@);
        let mut removed: Vec<(ID, usize)> = Vec::new();
        let mut i: usize = 0;
        while i < self.removed.entries.len()
            invariant
                i <= self.removed.entries@.len(),
                removed@ == self.removed.entries@.subrange(0, i as int),
            decreases self.removed.entries@.len() - i,
        {
            removed.push(self.removed.entries[i]);
            i += 1;
            assert(removed@ =~= self.removed.entries@.subrange(0, i as int));
        }
        assert(removed@ =~= self.removed.entries@);
        let mut restores: Vec<(ID, (u32, Vec<ID>))> = Vec::new();
        let mut i: usize = 0;
        while i < self.restores.entries.len()
            invariant
                i <= self.restores.entries@.len(),
                restores@.len() == i,
                forall|k: int| 0 <= k < i ==> (#[trigger] restores@[k]).0 == self.restores.entries@[k].0
                    && restores@[k].1.0 == self.restores.entries@[k].1.0 && restores@[k].1.1@ == self.restores.entries@[k].1.1@,
            decreases self.restores.entries@.len() - i,
        {
            let e = &self.restores.entries[i];
            restores.push((e.0, (e.1.0, copy_ids(&e.1.1))));
            i += 1;
        }
        let r = Life {
            created_at: self.created_at,
            deletes: IdMap { entries: deletes },
            restores: IdMap { entries: restores },
            removed: IdMap { entries: removed },
        };
        proof {
            assert(r.restores.keys() =~= self.restores.keys());
            assert(r.deletes.keys() =~= self.deletes.keys());
            assert(r.removed.keys() =~= self.removed.keys());
            assert(r.deletes@ =~= self.deletes@);
            assert(r.removed@ =~= self.removed@);
            assert(restores_view(r.restores@) =~= restores_view(self.restores@)) by {
                assert forall|k: ID| #[trigger] r.restores@.contains_key(k) implies (r.restores@[k].0, r.restores@[k].1@) == (self.restores@[k].0, self.restores@[k].1@) by {
                    let j = r.restores.keys().index_of(k);
                    assert(r.restores.keys()[j] == k);
                }
            }
            assert(r@ == self@);
        }
        r
    }
}

pub fn copy_ids(v: &Vec<ID>) -> (r: Vec<ID>)
    ensures
        r@ == v@,
{
    let mut r: Vec<ID> = Vec::new();
    let mut i: usize = 0;
    while i < v.len()
        invariant
            i <= v@.len(),
            r@ == v@.subrange(0, i as int),
        decreases v@.len() - i,
    {
        r.push(v[i]);
        i += 1;
        assert(r@ =~= v@.subrange(0, i as int));
    }
    assert(r@ =~= v@);
    r
}


/// Retracting a delete that was just added (inverse replay) restores the lifecycle.
pub proof fn law_delete_retract(v: LifeView, id: ID, lamport: u32)
    requires
        !v.deletes.contains_key(id),
    ensures
        spec_delete(spec_delete(v, id, lamport, true), id, lamport, false) == v,
{
    assert(v.deletes.insert(id, lamport).remove(id) =~= v.deletes);
}

/// Retracting a restore that was just added (inverse replay) restores the lifecycle.
pub proof fn law_restore_retract(v: LifeView, id: ID, lamport: u32, tags: Seq<ID>)
    requires
        !v.restores.contains_key(id),
    ensures
        spec_restore(spec_restore(v, id, lamport, tags, true), id, lamport, tags, false) == v,
{
    assert(v.restores.insert(id, (lamport, tags)).remove(id) =~= v.restores);
}

/// A restore that names every delete tag it observed makes the object alive.
pub proof fn law_restore_observed_is_alive(v: LifeView, id: ID, lamport: u32, tags: Seq<ID>)
    requires
        forall|t: ID| #[trigger] v.deletes.contains_key(t) ==> tags.contains(t),
    ensures
        life_alive(spec_restore(v, id, lamport, tags, true)),
{
    let w = spec_restore(v, id, lamport, tags, true);
    assert forall|t: ID| #[trigger] w.deletes.contains_key(t) implies restored(w.restores, t) by {
        assert(w.restores.contains_key(id));
    }
}

/// Remove wins: a delete that no restore names keeps the object dead, whatever
/// other restores (naming other tags) are added.
pub proof fn law_unobserved_delete_wins(
    v: LifeView,
    d: ID,
    d_lamport: u32,
    r: ID,
    r_lamport: u32,
    tags: Seq<ID>,
)
    requires
        !restored(v.restores, d),
        !tags.contains(d),
    ensures
        !life_alive(spec_delete(v, d, d_lamport, true)),
        !life_alive(spec_restore(spec_delete(v, d, d_lamport, true), r, r_lamport, tags, true)),
{
    let w = spec_delete(v, d, d_lamport, true);
    assert(w.deletes.contains_key(d));
    let x = spec_restore(w, r, r_lamport, tags, true);
    assert(x.deletes.contains_key(d));
    if restored(x.restores, d) {
        let q = choose|q: ID| #[trigger] x.restores.contains_key(q) && x.restores[q].1.contains(d);
        if q != r {
            assert(v.restores.contains_key(q));
        }
    }
}

/// Lifecycle operations with distinct identities commute, so replicas that
/// apply the same operations in different orders reach the same lifecycle.
pub proof fn law_lifecycle_ops_commute(
    v: LifeView,
    d: ID,
    dl: u32,
    e: ID,
    el: u32,
    r: ID,
    rl: u32,
    tags: Seq<ID>,
    s: ID,
    sl: u32,
    stags: Seq<ID>,
)
    requires
        d != e,
        r != s,
    ensures
        spec_delete(spec_restore(v, r, rl, tags, true), d, dl, true) == spec_restore(
            spec_delete(v, d, dl, true),
            r,
            rl,
            tags,
            true,
        ),
        spec_delete(spec_delete(v, d, dl, true), e, el, true) == spec_delete(
            spec_delete(v, e, el, true),
            d,
            dl,
            true,
        ),
        spec_restore(spec_restore(v, r, rl, tags, true), s, sl, stags, true) == spec_restore(
            spec_restore(v, s, sl, stags, true),
            r,
            rl,
            tags,
            true,
        ),
{
    assert(v.deletes.insert(d, dl).insert(e, el) =~= v.deletes.insert(e, el).insert(d, dl));
    assert(v.restores.insert(r, (rl, tags)).insert(s, (sl, stags)) =~= v.restores.insert(
        s,
        (sl, stags),
    ).insert(r, (rl, tags)));
}


/// An explicit restore that names every active delete tag, under a fresh restore
/// identity, makes the object alive.
pub proof fn law_restore_active_is_alive(v: LifeView, id: ID, lamport: u32, tags: Seq<ID>)
    requires
        !v.restores.contains_key(id),
        forall|t: ID| #[trigger] is_active_tag(v, t) ==> tags.contains(t),
    ensures
        life_alive(spec_restore(v, id, lamport, tags, true)),
{
    let w = spec_restore(v, id, lamport, tags, true);
    assert forall|t: ID| #[trigger] w.deletes.contains_key(t) implies restored(w.restores, t) by {
        if restored(v.restores, t) {
            let q = choose|q: ID| #[trigger] v.restores.contains_key(q) && v.restores[q].1.contains(t);
            assert(w.restores.contains_key(q) && w.restores[q] == v.restores[q]);
        } else {
            assert(is_active_tag(v, t));
            assert(w.restores.contains_key(id));
        }
    }
}

} // verus!
