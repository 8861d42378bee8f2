//! The order register of one edge: every position write, keyed by `(lamport, peer)`.
//! The write with the greatest key wins, whatever the order in which writes arrive.
use vstd::prelude::*;
use crate::ids::{IdLp, IdFull, idlp_lt, idlp_less};
use crate::position::{GraphPosition, valid_position};

verus! {

/// Writes of a register as a map from writer to `(counter, position bytes)`.
pub type RegisterView = Map<IdLp, (i32, Seq<u8>)>;

/// `k` is the greatest writer of the register.
pub open spec fn is_winner(m: RegisterView, k: IdLp) -> bool {
    &&& m.contains_key(k)
    &&& forall|o: IdLp| #[trigger] m.contains_key(o) && o != k ==> idlp_lt(o, k)
}

/// The greatest writer (meaningful when the register holds a write).
pub open spec fn winner_key(m: RegisterView) -> IdLp {
    choose|k: IdLp| is_winner(m, k)
}

/// The winning value: position bytes and the full identity of the winning write.
pub open spec fn winner_value(m: RegisterView) -> (Seq<u8>, IdFull) {
    let k = winner_key(m);
    (m[k].1, IdFull { peer: k.peer, counter: m[k].0, lamport: k.lamport })
}

pub proof fn lemma_winner_unique(m: RegisterView, a: IdLp, b: IdLp)
    requires
        is_winner(m, a),
        is_winner(m, b),
    ensures
        a == b,
{
    if a != b {
        assert(idlp_lt(a, b));
        assert(idlp_lt(b, a));
    }
}

pub proof fn lemma_winner_key(m: RegisterView, k: IdLp)
    requires
        is_winner(m, k),
    ensures
        winner_key(m) == k,
{
    let w = winner_key(m);
    lemma_winner_unique(m, w, k);
}


/// A finite register with at least one write has a greatest writer.
pub proof fn lemma_winner_exists(m: RegisterView)
    requires
        m.dom().finite(),
        m.dom().len() > 0,
    ensures
        is_winner(m, winner_key(m)),
    decreases m.dom().len(),
{
    let k = m.dom().choose();
    assert(m.dom().contains(k));
    if m.dom().len() == 1 {
        assert forall|o: IdLp| #[trigger] m.contains_key(o) && o != k implies idlp_lt(o, k) by {
            assert(m.dom().remove(k).contains(o));
            assert(m.dom().remove(k).len() == 0);
        }
        assert(is_winner(m, k));
    } else {
        let m2 = m.remove(k);
        assert(m2.dom() =~= m.dom().remove(k));
        lemma_winner_exists(m2);
        let w = winner_key(m2);
        if idlp_lt(k, w) {
            assert forall|o: IdLp| #[trigger] m.contains_key(o) && o != w implies idlp_lt(o, w) by {
                if o != k {
                    assert(m2.contains_key(o));
                }
            }
            assert(is_winner(m, w));
        } else {
            assert(w != k);
            assert(idlp_lt(w, k));
            assert forall|o: IdLp| #[trigger] m.contains_key(o) && o != k implies idlp_lt(o, k) by {
                assert(m2.contains_key(o));
                if o != w {
                    assert(idlp_lt(o, w));
                }
            }
            assert(is_winner(m, k));
        }
    }
}

/// Unordered list of writes with distinct writers.
pub struct Register {
    pub writes: Vec<(IdLp, i32, GraphPosition)>,
}

impl View for Register {
    type V = RegisterView;

    open spec fn view(&self) -> RegisterView {
        Map::new(
            |k: IdLp| exists|i: int| 0 <= i < self.writes@.len() && #[trigger] self.writes@[i].0 == k,
            |k: IdLp| {
                let i = choose|i: int| 0 <= i < self.writes@.len() && #[trigger] self.writes@[i].0 == k;
                (self.writes@[i].1, self.writes@[i].2@)
            },
        )
    }
}

impl Register {
    pub open spec fn wf(&self) -> bool {
        &&& forall|i: int, j: int|
            0 <= i < j < self.writes@.len() ==> (#[trigger] self.writes@[i]).0 != (#[trigger] self.writes@[j]).0
        &&& forall|i: int| 0 <= i < self.writes@.len() ==> (#[trigger] self.writes@[i]).2.wf()
    }

    /// An independent copy.
    pub fn duplicate(&self) -> (r: Register)
        requires
            self.wf(),
        ensures
            r.wf(),
            r@ == self@,
    {
        let mut writes: Vec<(IdLp, i32, GraphPosition)> = Vec::new();
        let mut i: usize = 0;
        while i < self.writes.len()
            invariant
                self.wf(),
                i <= self.writes@.len(),
                writes@.len() == i,
                forall|k: int| 0 <= k < i ==> (#[trigger] writes@[k]).0 == self.writes@[k].0 && writes@[k].1 == self.writes@[k].1
                    && writes@[k].2@ == self.writes@[k].2@ && writes@[k].2.wf(),
            decreases self.writes@.len() - i,
        {
            let w = &self.writes[i];
            let p = w.2.duplicate();
            writes.push((w.0, w.1, p));
            i += 1;
        }
        let r = Register { writes };
        proof {
            assert forall|a: int, b: int| 0 <= a < b < r.writes@.len() implies (#[trigger] r.writes@[a]).0 != (#[trigger] r.writes@[b]).0 by {
                assert(self.writes@[a].0 != self.writes@[b].0);
            }
            assert forall|k: IdLp| #[trigger] r@.contains_key(k) <==> self@.contains_key(k) by {
                if r@.contains_key(k) {
                    let j = choose|j: int| 0 <= j < r.writes@.len() && #[trigger] r.writes@[j].0 == k;
                    assert(self.writes@[j].0 == k);
                }
                if self@.contains_key(k) {
                    let j = choose|j: int| 0 <= j < self.writes@.len() && #[trigger] self.writes@[j].0 == k;
                    assert(r.writes@[j].0 == k);
                }
            }
            assert forall|k: IdLp| #[trigger] r@.contains_key(k) implies r@[k] == self@[k] by {
                let j = choose|j: int| 0 <= j < r.writes@.len() && #[trigger] r.writes@[j].0 == k;
                r.lemma_entry(j);
                self.lemma_entry(j);
            }
            assert(r@ =~= self@);
        }
        r
    }

    pub proof fn lemma_entry(&self, i: int)
        requires
            self.wf(),
            0 <= i < self.writes@.len(),
        ensures
            self@.contains_key(self.writes@[i].0),
            self@[self.writes@[i].0] == (self.writes@[i].1, self.writes@[i].2@),
            valid_position(self@[self.writes@[i].0].1),
    {
        let k = self.writes@[i].0;
        assert(self@.contains_key(k));
        let j = choose|j: int| 0 <= j < self.writes@.len() && #[trigger] self.writes@[j].0 == k;
        if i != j {
            if i < j {
                assert(self.writes@[i].0 != self.writes@[j].0);
            } else {
                assert(self.writes@[j].0 != self.writes@[i].0);
            }
        }
        self.writes@[i].2.lemma_view_wf();
    }

    pub proof fn lemma_values_valid(&self)
        requires
            self.wf(),
        ensures
            forall|k: IdLp| #[trigger] self@.contains_key(k) ==> valid_position(self@[k].1),
            self@.dom().finite(),
    {
        assert forall|k: IdLp| #[trigger] self@.contains_key(k) implies valid_position(self@[k].1) by {
            let i = choose|i: int| 0 <= i < self.writes@.len() && #[trigger] self.writes@[i].0 == k;
            self.lemma_entry(i);
        }
        let keys = Seq::new(self.writes@.len(), |i: int| self.writes@[i].0);
        assert(self@.dom() =~= keys.to_set()) by {
            assert forall|k: IdLp| self@.dom().contains(k) implies keys.to_set().contains(k) by {
                let i = choose|i: int| 0 <= i < self.writes@.len() && #[trigger] self.writes@[i].0 == k;
                assert(keys[i] == k);
            }
            assert forall|k: IdLp| keys.to_set().contains(k) implies self@.dom().contains(k) by {
                let i = choose|i: int| 0 <= i < keys.len() && keys[i] == k;
                assert(self.writes@[i].0 == k);
            }
        }
        vstd::seq_lib::seq_to_set_is_finite(keys);
    }

    /// A register holding only the creation write.
    pub fn single(write: IdLp, counter: i32, position: GraphPosition) -> (r: Register)
        requires
            position.wf(),
        ensures
            r.wf(),
            r@ == map![write => (counter, position@)],
    {
        let r = Register { writes: vec![(write, counter, position)] };
        proof {
            r.lemma_entry(0);
            assert(r@ =~= map![write => (counter, r.writes@[0].2@)]);
        }
        r
    }

    /// Index of a writer's entry.
    fn find(&self, write: IdLp) -> (r: Option<usize>)
        requires
            self.wf(),
        ensures
            match r {
                Some(i) => i < self.writes@.len() && self.writes@[i as int].0 == write,
                None => !self@.contains_key(write),
            },
    {
        let mut i: usize = 0;
        while i < self.writes.len()
            invariant
                i <= self.writes@.len(),
                forall|j: int| 0 <= j < i ==> self.writes@[j].0 != write,
            decreases self.writes@.len() - i,
        {
            if self.writes[i].0 == write {
                return Some(i);
            }
            i += 1;
        }
        None
    }

    /// The value written by a writer.
    pub fn get(&self, write: IdLp) -> (r: Option<(i32, &GraphPosition)>)
        requires
            self.wf(),
        ensures
            match r {
                Some((c, p)) => self@.contains_key(write) && self@[write] == (c, p@) && p.wf(),
                None => !self@.contains_key(write),
            },
    {
        match self.find(write) {
            Some(i) => {
                proof { self.lemma_entry(i as int); }
                Some((self.writes[i].1, &self.writes[i].2))
            },
            None => None,
        }
    }

    pub fn len(&self) -> (r: usize)
        requires
            self.wf(),
        ensures
            r == self@.dom().len(),
    {
        proof { self.lemma_len(); }
        self.writes.len()
    }

    pub proof fn lemma_len(&self)
        requires
            self.wf(),
        ensures
            self@.dom().len() == self.writes@.len(),
    {
        let keys = Seq::new(self.writes@.len(), |i: int| self.writes@[i].0);
        assert(self@.dom() =~= keys.to_set()) by {
            assert forall|k: IdLp| self@.dom().contains(k) implies keys.to_set().contains(k) by {
                let i = choose|i: int| 0 <= i < self.writes@.len() && #[trigger] self.writes@[i].0 == k;
                assert(keys[i] == k);
            }
            assert forall|k: IdLp| keys.to_set().contains(k) implies self@.dom().contains(k) by {
                let i = choose|i: int| 0 <= i < keys.len() && keys[i] == k;
                assert(self.writes@[i].0 == k);
            }
        }
        assert(keys.no_duplicates()) by {
            assert forall|i: int, j: int| 0 <= i < keys.len() && 0 <= j < keys.len() && i != j implies keys[i] != keys[j] by {
                if i < j {
                    assert(self.writes@[i].0 != self.writes@[j].0);
                } else {
                    assert(self.writes@[j].0 != self.writes@[i].0);
                }
            }
        }
        keys.unique_seq_to_set();
    }

    /// Record a write; a write by the same writer is replaced.
    pub fn insert(&mut self, write: IdLp, counter: i32, position: GraphPosition)
        requires
            old(self).wf(),
            position.wf(),
        ensures
            final(self).wf(),
            final(self)@ == old(self)@.insert(write, (counter, position@)),
    {
        let ghost pv = position@;
        let ghost old_w = self.writes@;
        match self.find(write) {
            Some(i) => {
                self.writes.set(i, (write, counter, position));
                proof {
                    assert forall|a: int, b: int| 0 <= a < b < self.writes@.len() implies (#[trigger] self.writes@[a]).0 != (#[trigger] self.writes@[b]).0 by {
                        assert(old_w[a].0 != old_w[b].0);
                    }
                    assert(self.wf());
                    assert forall|k: IdLp| #[trigger] self@.contains_key(k) == old(self)@.insert(write, (counter, pv)).contains_key(k) by {
                        if self@.contains_key(k) {
                            let j = choose|j: int| 0 <= j < self.writes@.len() && #[trigger] self.writes@[j].0 == k;
                            if j != i {
                                assert(old_w[j].0 == k);
                            }
                        }
                        if old(self)@.contains_key(k) {
                            let j = choose|j: int| 0 <= j < old_w.len() && #[trigger] old_w[j].0 == k;
                            assert(self.writes@[j].0 == k);
                        }
                        if k == write {
                            assert(self.writes@[i as int].0 == k);
                        }
                    }
                    assert forall|k: IdLp| #[trigger] self@.contains_key(k) implies self@[k] == old(self)@.insert(write, (counter, pv))[k] by {
                        let j = choose|j: int| 0 <= j < self.writes@.len() && #[trigger] self.writes@[j].0 == k;
                        self.lemma_entry(j);
                        if j != i {
                            old(self).lemma_entry(j);
                        }
                    }
                    assert(self@ =~= old(self)@.insert(write, (counter, pv)));
                }
            },
            None => {
                self.writes.push((write, counter, position));
                proof {
                    let n = old_w.len() as int;
                    assert forall|a: int, b: int| 0 <= a < b < self.writes@.len() implies (#[trigger] self.writes@[a]).0 != (#[trigger] self.writes@[b]).0 by {
                        if b == n {
                            assert(old(self)@.contains_key(old_w[a].0));
                        } else {
                            assert(old_w[a].0 != old_w[b].0);
                        }
                    }
                    assert(self.wf());
                    assert forall|k: IdLp| #[trigger] self@.contains_key(k) == old(self)@.insert(write, (counter, pv)).contains_key(k) by {
                        if self@.contains_key(k) {
                            let j = choose|j: int| 0 <= j < self.writes@.len() && #[trigger] self.writes@[j].0 == k;
                            if j != n {
                                assert(old_w[j].0 == k);
                            }
                        }
                        if old(self)@.contains_key(k) {
                            let j = choose|j: int| 0 <= j < old_w.len() && #[trigger] old_w[j].0 == k;
                            assert(self.writes@[j].0 == k);
                        }
                        if k == write {
                            assert(self.writes@[n].0 == k);
                        }
                    }
                    assert forall|k: IdLp| #[trigger] self@.contains_key(k) implies self@[k] == old(self)@.insert(write, (counter, pv))[k] by {
                        let j = choose|j: int| 0 <= j < self.writes@.len() && #[trigger] self.writes@[j].0 == k;
                        self.lemma_entry(j);
                        if j != n {
                            old(self).lemma_entry(j);
                        }
                    }
                    assert(self@ =~= old(self)@.insert(write, (counter, pv)));
                }
            },
        }
    }

    /// Retract a write, if present.
    pub fn remove(&mut self, write: IdLp)
        requires
            old(self).wf(),
        ensures
            final(self).wf(),
            final(self)@ == old(self)@.remove(write),
    {
        let ghost old_w = self.writes@;
        match self.find(write) {
            Some(i) => {
                self.writes.remove(i);
                proof {
                    assert(self.writes@ =~= old_w.remove(i as int));
                    assert forall|a: int, b: int| 0 <= a < b < self.writes@.len() implies (#[trigger] self.writes@[a]).0 != (#[trigger] self.writes@[b]).0 by {
                        if b < i {
                            assert(old_w[a].0 != old_w[b].0);
                        } else if a < i {
                            assert(old_w[a].0 != old_w[b + 1].0);
                        } else {
                            assert(old_w[a + 1].0 != old_w[b + 1].0);
                        }
                    }
                    assert forall|a: int| 0 <= a < self.writes@.len() implies (#[trigger] self.writes@[a]).2.wf() by {
                        if a < i {
                            assert(old_w[a].2.wf());
                        } else {
                            assert(old_w[a + 1].2.wf());
                        }
                    }
                    assert(self.wf());
                    assert forall|k: IdLp| #[trigger] self@.contains_key(k) == old(self)@.remove(write).contains_key(k) by {
                        if self@.contains_key(k) {
                            let j = choose|j: int| 0 <= j < self.writes@.len() && #[trigger] self.writes@[j].0 == k;
                            if j < i {
                                assert(old_w[j].0 == k);
                                assert(old_w[j].0 != old_w[i as int].0);
                            } else {
                                assert(old_w[j + 1].0 == k);
                                assert(old_w[i as int].0 != old_w[j + 1].0);
                            }
                        }
                        if old(self)@.contains_key(k) && k != write {
                            let j = choose|j: int| 0 <= j < old_w.len() && #[trigger] old_w[j].0 == k;
                            if j < i {
                                assert(self.writes@[j].0 == k);
                            } else {
                                assert(j != i);
                                assert(self.writes@[j - 1].0 == k);
                            }
                        }
                    }
                    assert forall|k: IdLp| #[trigger] self@.contains_key(k) implies self@[k] == old(self)@.remove(write)[k] by {
                        let j = choose|j: int| 0 <= j < self.writes@.len() && #[trigger] self.writes@[j].0 == k;
                        self.lemma_entry(j);
                        if j < i {
                            old(self).lemma_entry(j);
                        } else {
                            old(self).lemma_entry(j + 1);
                        }
                    }
                    assert(self@ =~= old(self)@.remove(write));
                }
            },
            None => {
                proof {
                    assert(self@ =~= old(self)@.remove(write));
                }
            },
        }
    }

    /// The winning write: greatest `(lamport, peer)`.
    pub fn winner(&self) -> (r: (IdLp, i32, &GraphPosition))
        requires
            self.wf(),
            self@.dom().len() > 0,
        ensures
            is_winner(self@, r.0),
            self@[r.0] == (r.1, r.2@),
            r.2.wf(),
    {
        proof {
            self.lemma_len();
        }
        let mut best: usize = 0;
        let mut i: usize = 1;
        while i < self.writes.len()
            invariant
                self.wf(),
                self.writes@.len() > 0,
                best < i <= self.writes@.len(),
                forall|j: int| 0 <= j < i && j != best ==> idlp_lt(#[trigger] self.writes@[j].0, self.writes@[best as int].0),
            decreases self.writes@.len() - i,
        {
            if idlp_less(self.writes[best].0, self.writes[i].0) {
                proof {
                    assert forall|j: int| 0 <= j < i + 1 && j != i implies idlp_lt(#[trigger] self.writes@[j].0, self.writes@[i as int].0) by {
                        if j != best {
                            assert(idlp_lt(self.writes@[j].0, self.writes@[best as int].0));
                        }
                    }
                }
                best = i;
            } else {
                proof {
                    if i != best {
                        assert(self.writes@[i as int].0 != self.writes@[best as int].0);
                    }
                }
            }
            i += 1;
        }
        proof {
            self.lemma_entry(best as int);
            let k = self.writes@[best as int].0;
            assert forall|o: IdLp| #[trigger] self@.contains_key(o) && o != k implies idlp_lt(o, k) by {
                let j = choose|j: int| 0 <= j < self.writes@.len() && #[trigger] self.writes@[j].0 == o;
                assert(j != best);
            }
        }
        (self.writes[best].0, self.writes[best].1, &self.writes[best].2)
    }

    /// Identity of the winning write, with its position.
    pub fn winner_full(&self) -> (r: (GraphPosition, IdFull))
        requires
            self.wf(),
            self@.dom().len() > 0,
        ensures
            (r.0@, r.1) == winner_value(self@),
            r.0.wf(),
    {
        let (k, c, p) = self.winner();
        proof { lemma_winner_key(self@, k); }
        (p.duplicate(), IdFull::new(k.peer, c, k.lamport))
    }
}

} // verus!
