//! Maps keyed by operation identity, kept as vectors sorted by `(peer, counter)`.
use vstd::prelude::*;
use crate::ids::{ID, id_lt, id_less};

verus! {

pub open spec fn sorted_ids(s: Seq<ID>) -> bool {
    forall|i: int, j: int| 0 <= i < j < s.len() ==> id_lt(s[i], s[j])
}

/// A finite map from identities to values, iterated in ascending identity order.
pub struct IdMap<V> {
    pub entries: Vec<(ID, V)>,
}

impl<V> IdMap<V> {
    /// The keys in iteration (ascending) order.
    pub open spec fn keys(&self) -> Seq<ID> {
        Seq::new(self.entries@.len(), |i: int| self.entries@[i].0)
    }

    pub open spec fn wf(&self) -> bool {
        sorted_ids(self.keys())
    }

    /// The value stored under a key that is present.
    pub open spec fn value_of(&self, k: ID) -> V {
        self.entries@[self.keys().index_of(k)].1
    }

    pub open spec fn view(&self) -> Map<ID, V> {
        Map::new(|k: ID| self.keys().contains(k), |k: ID| self.value_of(k))
    }

    pub proof fn lemma_at(&self, i: int)
        requires
            self.wf(),
            0 <= i < self.entries@.len(),
        ensures
            self@.contains_key(self.keys()[i]),
            self@[self.keys()[i]] == self.entries@[i].1,
            self.keys().index_of(self.keys()[i]) == i,
    {
        let k = self.keys()[i];
        assert(self.keys().contains(k));
        let j = self.keys().index_of(k);
        assert(0 <= j < self.keys().len() && self.keys()[j] == k);
        if j < i {
            assert(id_lt(self.keys()[j], self.keys()[i]));
        } else if j > i {
            assert(id_lt(self.keys()[i], self.keys()[j]));
        }
    }

    pub proof fn lemma_view(&self)
        requires
            self.wf(),
        ensures
            forall|i: int|
                #![trigger self.entries@[i]]
                0 <= i < self.entries@.len() ==> self@.contains_key(self.entries@[i].0)
                    && self@[self.entries@[i].0] == self.entries@[i].1,
            forall|k: ID|
                #[trigger] self@.contains_key(k) ==> exists|i: int|
                    0 <= i < self.entries@.len() && self.entries@[i].0 == k,
            self@.dom() == self.keys().to_set(),
            self@.dom().finite(),
            self@.dom().len() == self.entries@.len(),
    {
        assert forall|i: int|
            #![trigger self.entries@[i]]
            0 <= i < self.entries@.len() implies self@.contains_key(self.entries@[i].0)
            && self@[self.entries@[i].0] == self.entries@[i].1 by {
            self.lemma_at(i);
        }
        assert forall|k: ID| #[trigger] self@.contains_key(k) implies exists|i: int|
            0 <= i < self.entries@.len() && self.entries@[i].0 == k by {
            let i = self.keys().index_of(k);
            assert(self.keys()[i] == k);
        }
        assert(self@.dom() =~= self.keys().to_set());
        assert(self.keys().no_duplicates()) by {
            assert forall|i: int, j: int|
                0 <= i < self.keys().len() && 0 <= j < self.keys().len() && i != j implies
                self.keys()[i] != self.keys()[j] by {
                if i < j {
                    assert(id_lt(self.keys()[i], self.keys()[j]));
                } else {
                    assert(id_lt(self.keys()[j], self.keys()[i]));
                }
            }
        }
        self.keys().unique_seq_to_set();
        vstd::seq_lib::seq_to_set_is_finite(self.keys());
    }

    pub fn new() -> (r: Self)
        ensures
            r.wf(),
            r@ == Map::<ID, V>::empty(),
            r.entries@.len() == 0,
    {
        let r = IdMap { entries: Vec::new() };
        assert(r@ =~= Map::<ID, V>::empty());
        r
    }

    pub fn len(&self) -> (r: usize)
        ensures
            r == self.entries@.len(),
    {
        self.entries.len()
    }

    pub fn is_empty(&self) -> (r: bool)
        requires
            self.wf(),
        ensures
            r == (self@.dom().len() == 0),
            r == (self@ == Map::<ID, V>::empty()),
    {
        proof {
            self.lemma_view();
            if self.entries@.len() > 0 {
                assert(self@.contains_key(self.entries@[0].0));
            } else {
                assert(self@ =~= Map::<ID, V>::empty());
            }
        }
        self.entries.len() == 0
    }

    pub fn key_at(&self, i: usize) -> (r: ID)
        requires
            i < self.entries@.len(),
        ensures
            r == self.keys()[i as int],
    {
        self.entries[i].0
    }

    pub fn value_at(&self, i: usize) -> (r: &V)
        requires
            i < self.entries@.len(),
        ensures
            *r == self.entries@[i as int].1,
    {
        &self.entries[i].1
    }

    /// Binary search for a key.
    pub fn find(&self, k: ID) -> (r: Result<usize, usize>)
        requires
            self.wf(),
        ensures
            match r {
                Ok(i) => i < self.entries@.len() && self.keys()[i as int] == k,
                Err(i) => i <= self.entries@.len() && (forall|j: int|
                    0 <= j < i ==> id_lt(#[trigger] self.keys()[j], k)) && (forall|j: int|
                    i <= j < self.entries@.len() ==> id_lt(k, #[trigger] self.keys()[j])),
            },
    {
        let mut lo: usize = 0;
        let mut hi: usize = self.entries.len();
        while lo < hi
            invariant
                self.wf(),
                lo <= hi <= self.entries@.len(),
                forall|j: int| 0 <= j < lo ==> id_lt(#[trigger] self.keys()[j], k),
                forall|j: int| hi <= j < self.entries@.len() ==> id_lt(k, #[trigger] self.keys()[j]),
            decreases hi - lo,
        {
            let mid = lo + (hi - lo) / 2;
            let m = self.entries[mid].0;
            if m == k {
                return Ok(mid);
            } else if id_less(m, k) {
                assert forall|j: int| 0 <= j < mid + 1 implies id_lt(#[trigger] self.keys()[j], k) by {
                    if j < mid {
                        assert(id_lt(self.keys()[j], self.keys()[mid as int]));
                    }
                }
                lo = mid + 1;
            } else {
                assert forall|j: int| mid <= j < self.entries@.len() implies id_lt(k, #[trigger] self.keys()[j]) by {
                    if j > mid {
                        assert(id_lt(self.keys()[mid as int], self.keys()[j]));
                    }
                }
                hi = mid;
            }
        }
        Err(lo)
    }

    pub fn contains_key(&self, k: ID) -> (r: bool)
        requires
            self.wf(),
        ensures
            r == self@.contains_key(k),
    {
        proof { self.lemma_view(); }
        match self.find(k) {
            Ok(i) => {
                proof { self.lemma_at(i as int); }
                true
            },
            Err(i) => {
                proof {
                    if self@.contains_key(k) {
                        let j = choose|j: int| 0 <= j < self.entries@.len() && self.entries@[j].0 == k;
                        assert(self.keys()[j] == k);
                        if j < i {
                            assert(id_lt(self.keys()[j], k));
                        } else {
                            assert(id_lt(k, self.keys()[j]));
                        }
                    }
                }
                false
            },
        }
    }

    pub fn get(&self, k: ID) -> (r: Option<&V>)
        requires
            self.wf(),
        ensures
            match r {
                Some(v) => self@.contains_key(k) && *v == self@[k],
                None => !self@.contains_key(k),
            },
    {
        proof { self.lemma_view(); }
        match self.find(k) {
            Ok(i) => {
                proof { self.lemma_at(i as int); }
                Some(&self.entries[i].1)
            },
            Err(i) => {
                proof {
                    if self@.contains_key(k) {
                        let j = choose|j: int| 0 <= j < self.entries@.len() && self.entries@[j].0 == k;
                        assert(self.keys()[j] == k);
                        if j < i {
                            assert(id_lt(self.keys()[j], k));
                        } else {
                            assert(id_lt(k, self.keys()[j]));
                        }
                    }
                }
                None
            },
        }
    }

    /// Insert or replace; returns the replaced value.
    pub fn insert(&mut self, k: ID, v: V) -> (r: Option<V>)
        requires
            old(self).wf(),
        ensures
            final(self).wf(),
            final(self)@ == old(self)@.insert(k, v),
            match r {
                Some(o) => old(self)@.contains_key(k) && o == old(self)@[k],
                None => !old(self)@.contains_key(k),
            },
            final(self).entries@.len() == old(self).entries@.len() + (if old(self)@.contains_key(k) { 0int } else { 1int }),
    {
        proof { self.lemma_view(); }
        let ghost old_self = *self;
        match self.find(k) {
            Ok(i) => {
                proof { old_self.lemma_at(i as int); }
                let (_, o) = self.entries.remove(i);
                self.entries.insert(i, (k, v));
                proof {
                    assert(self.keys() =~= old_self.keys());
                    self.lemma_view();
                    assert forall|kk: ID| #[trigger] self@.contains_key(kk) == old_self@.insert(k, v).contains_key(kk) by {
                        assert(self.keys().contains(kk) == old_self.keys().contains(kk));
                        if kk == k {
                            assert(self.keys()[i as int] == k);
                        }
                    }
                    assert forall|kk: ID| #[trigger] self@.contains_key(kk) implies self@[kk] == old_self@.insert(k, v)[kk] by {
                        let j = choose|j: int| 0 <= j < self.entries@.len() && self.entries@[j].0 == kk;
                        self.lemma_at(j);
                        if j != i {
                            old_self.lemma_at(j);
                        }
                    }
                    assert(self@ =~= old_self@.insert(k, v));
                }
                Some(o)
            },
            Err(i) => {
                proof {
                    if old_self@.contains_key(k) {
                        let j = choose|j: int| 0 <= j < old_self.entries@.len() && old_self.entries@[j].0 == k;
                        assert(old_self.keys()[j] == k);
                        if j < i {
                            assert(id_lt(old_self.keys()[j], k));
                        } else {
                            assert(id_lt(k, old_self.keys()[j]));
                        }
                    }
                }
                self.entries.insert(i, (k, v));
                proof {
                    assert(self.keys() =~= old_self.keys().insert(i as int, k));
                    assert(sorted_ids(self.keys())) by {
                        assert forall|a: int, b: int| 0 <= a < b < self.keys().len() implies id_lt(self.keys()[a], self.keys()[b]) by {
                            if b < i {
                            } else if a < i && b == i {
                            } else if a < i && b > i {
                                assert(id_lt(old_self.keys()[a], k));
                                assert(id_lt(k, old_self.keys()[b - 1]));
                            } else if a == i {
                                assert(id_lt(k, old_self.keys()[b - 1]));
                            } else {
                                assert(id_lt(old_self.keys()[a - 1], old_self.keys()[b - 1]));
                            }
                        }
                    }
                    self.lemma_view();
                    assert forall|kk: ID| #[trigger] self@.contains_key(kk) == old_self@.insert(k, v).contains_key(kk) by {
                        if old_self@.contains_key(kk) {
                            let j = choose|j: int| 0 <= j < old_self.entries@.len() && old_self.entries@[j].0 == kk;
                            if j < i {
                                assert(self.entries@[j].0 == kk);
                            } else {
                                assert(self.entries@[j + 1].0 == kk);
                            }
                        }
                        if kk == k {
                            assert(self.entries@[i as int].0 == k);
                        }
                        if self@.contains_key(kk) {
                            let j = choose|j: int| 0 <= j < self.entries@.len() && self.entries@[j].0 == kk;
                            if j < i {
                                assert(old_self.entries@[j].0 == kk);
                            } else if j > i {
                                assert(old_self.entries@[j - 1].0 == kk);
                            }
                        }
                    }
                    assert forall|kk: ID| #[trigger] self@.contains_key(kk) implies self@[kk] == old_self@.insert(k, v)[kk] by {
                        let j = choose|j: int| 0 <= j < self.entries@.len() && self.entries@[j].0 == kk;
                        self.lemma_at(j);
                        if j < i {
                            old_self.lemma_at(j);
                        } else if j > i {
                            old_self.lemma_at(j - 1);
                        }
                    }
                    assert(self@ =~= old_self@.insert(k, v));
                }
                None
            },
        }
    }

    /// Remove a key; returns its value.
    pub fn remove(&mut self, k: ID) -> (r: Option<V>)
        requires
            old(self).wf(),
        ensures
            final(self).wf(),
            final(self)@ == old(self)@.remove(k),
            match r {
                Some(o) => old(self)@.contains_key(k) && o == old(self)@[k],
                None => !old(self)@.contains_key(k),
            },
            final(self).entries@.len() == old(self).entries@.len() - (if old(self)@.contains_key(k) { 1int } else { 0int }),
    {
        proof { self.lemma_view(); }
        let ghost old_self = *self;
        match self.find(k) {
            Ok(i) => {
                proof { old_self.lemma_at(i as int); }
                let (_, o) = self.entries.remove(i);
                proof {
                    assert(self.keys() =~= old_self.keys().remove(i as int));
                    assert(sorted_ids(self.keys())) by {
                        assert forall|a: int, b: int| 0 <= a < b < self.keys().len() implies id_lt(self.keys()[a], self.keys()[b]) by {
                            if b < i {
                            } else if a < i {
                                assert(id_lt(old_self.keys()[a], old_self.keys()[b + 1]));
                            } else {
                                assert(id_lt(old_self.keys()[a + 1], old_self.keys()[b + 1]));
                            }
                        }
                    }
                    self.lemma_view();
                    assert forall|kk: ID| #[trigger] self@.contains_key(kk) == old_self@.remove(k).contains_key(kk) by {
                        if self@.contains_key(kk) {
                            let j = choose|j: int| 0 <= j < self.entries@.len() && self.entries@[j].0 == kk;
                            if j < i {
                                assert(old_self.entries@[j].0 == kk);
                                assert(id_lt(old_self.keys()[j], old_self.keys()[i as int]));
                            } else {
                                assert(old_self.entries@[j + 1].0 == kk);
                                assert(id_lt(old_self.keys()[i as int], old_self.keys()[j + 1]));
                            }
                        }
                        if old_self@.remove(k).contains_key(kk) {
                            let j = choose|j: int| 0 <= j < old_self.entries@.len() && old_self.entries@[j].0 == kk;
                            assert(j != i);
                            if j < i {
                                assert(self.entries@[j].0 == kk);
                            } else {
                                assert(self.entries@[j - 1].0 == kk);
                            }
                        }
                    }
                    assert forall|kk: ID| #[trigger] self@.contains_key(kk) implies self@[kk] == old_self@.remove(k)[kk] by {
                        let j = choose|j: int| 0 <= j < self.entries@.len() && self.entries@[j].0 == kk;
                        self.lemma_at(j);
                        if j < i {
                            old_self.lemma_at(j);
                        } else {
                            old_self.lemma_at(j + 1);
                        }
                    }
                    assert(self@ =~= old_self@.remove(k));
                }
                Some(o)
            },
            Err(i) => {
                proof {
                    if old_self@.contains_key(k) {
                        let j = choose|j: int| 0 <= j < old_self.entries@.len() && old_self.entries@[j].0 == k;
                        assert(old_self.keys()[j] == k);
                        if j < i {
                            assert(id_lt(old_self.keys()[j], k));
                        } else {
                            assert(id_lt(k, old_self.keys()[j]));
                        }
                    }
                    assert(old_self@ =~= old_self@.remove(k));
                }
                None
            },
        }
    }

    /// The keys in ascending order.
    pub fn keys_vec(&self) -> (r: Vec<ID>)
        ensures
            r@ == self.keys(),
    {
        let mut r: Vec<ID> = Vec::new();
        let mut i: usize = 0;
        while i < self.entries.len()
            invariant
                i <= self.entries@.len(),
                r@ == self.keys().subrange(0, i as int),
            decreases self.entries@.len() - i,
        {
            r.push(self.entries[i].0);
            i += 1;
            assert(r@ =~= self.keys().subrange(0, i as int));
        }
        assert(r@ =~= self.keys());
        r
    }
}


impl<V> IdMap<V> {
    /// Insert every entry of `other`, replacing existing values.
    pub fn extend(&mut self, other: IdMap<V>)
        requires
            old(self).wf(),
            other.wf(),
        ensures
            final(self).wf(),
            final(self)@ == old(self)@.union_prefer_right(other@),
    {
        let ghost orig = other;
        proof { orig.lemma_view(); }
        let mut rest = other.entries;
        let ghost start = self@;
        while rest.len() > 0
            invariant
                self.wf(),
                orig.wf(),
                rest@ == orig.entries@.subrange(0, rest@.len() as int),
                rest@.len() <= orig.entries@.len(),
                forall|k: ID| #[trigger] self@.contains_key(k) <==> (start.contains_key(k) || exists|j: int|
                    rest@.len() <= j < orig.entries@.len() && orig.entries@[j].0 == k),
                forall|j: int| #![trigger orig.entries@[j]] rest@.len() <= j < orig.entries@.len() ==> self@[orig.entries@[j].0]
                    == orig.entries@[j].1,
                forall|k: ID| #[trigger] self@.contains_key(k) && !(exists|j: int|
                    rest@.len() <= j < orig.entries@.len() && orig.entries@[j].0 == k) ==> self@[k] == start[k],
            decreases rest@.len(),
        {
            let ghost n = rest@.len();
            let (k, v) = rest.pop().unwrap();
            proof {
                assert(orig.entries@[n - 1] == (k, v));
            }
            self.insert(k, v);
            proof {
                assert(rest@ =~= orig.entries@.subrange(0, rest@.len() as int));
                assert forall|j: int| #![trigger orig.entries@[j]] rest@.len() <= j < orig.entries@.len() implies self@[orig.entries@[j].0]
                    == orig.entries@[j].1 by {
                    if j != n - 1 {
                        if orig.entries@[j].0 == k {
                            orig.lemma_at(j);
                            orig.lemma_at(n - 1);
                        }
                    }
                }
                assert forall|kk: ID| #[trigger] self@.contains_key(kk) <==> (start.contains_key(kk) || exists|j: int|
                    rest@.len() <= j < orig.entries@.len() && orig.entries@[j].0 == kk) by {
                    if kk == k {
                        assert(orig.entries@[n - 1].0 == kk);
                    }
                }
            }
        }
        proof {
            assert forall|kk: ID| #[trigger] self@.contains_key(kk) == start.union_prefer_right(orig@).contains_key(kk) by {
                if orig@.contains_key(kk) {
                    let j = choose|j: int| 0 <= j < orig.entries@.len() && orig.entries@[j].0 == kk;
                }
                if exists|j: int| 0 <= j < orig.entries@.len() && orig.entries@[j].0 == kk {
                    let j = choose|j: int| 0 <= j < orig.entries@.len() && orig.entries@[j].0 == kk;
                    orig.lemma_at(j);
                }
            }
            assert forall|kk: ID| #[trigger] self@.contains_key(kk) implies self@[kk] == start.union_prefer_right(orig@)[kk] by {
                if exists|j: int| 0 <= j < orig.entries@.len() && orig.entries@[j].0 == kk {
                    let j = choose|j: int| 0 <= j < orig.entries@.len() && orig.entries@[j].0 == kk;
                    orig.lemma_at(j);
                    assert(self@[orig.entries@[j].0] == orig.entries@[j].1);
                } else {
                    if orig@.contains_key(kk) {
                        let j = choose|j: int| 0 <= j < orig.entries@.len() && orig.entries@[j].0 == kk;
                    }
                }
            }
            assert(self@ =~= start.union_prefer_right(orig@));
        }
    }

    /// Take the entries out, in ascending key order.
    pub fn into_entries(self) -> (r: Vec<(ID, V)>)
        ensures
            r@ == self.entries@,
    {
        self.entries
    }
}


/// Filtering an ascending sequence of identities keeps it ascending and keeps
/// exactly the elements that satisfy the predicate.
pub proof fn lemma_filter_ids(s: Seq<ID>, p: spec_fn(ID) -> bool)
    requires
        sorted_ids(s),
    ensures
        sorted_ids(s.filter(p)),
        forall|x: ID| #[trigger] s.filter(p).contains(x) <==> (s.contains(x) && p(x)),
    decreases s.len(),
{
    reveal(Seq::filter);
    if s.len() > 0 {
        let d = s.drop_last();
        assert(sorted_ids(d)) by {
            assert forall|i: int, j: int| 0 <= i < j < d.len() implies id_lt(d[i], d[j]) by {
                assert(d[i] == s[i] && d[j] == s[j]);
            }
        }
        lemma_filter_ids(d, p);
        let f = d.filter(p);
        let l = s.last();
        assert(s.filter(p) == if p(l) { f.push(l) } else { f });
        assert forall|x: ID| f.contains(x) implies id_lt(x, l) by {
            let i = choose|i: int| 0 <= i < d.len() && d[i] == x;
            assert(s[i] == x);
            assert(id_lt(s[i], s[s.len() - 1]));
        }
        if p(l) {
            assert forall|i: int, j: int| 0 <= i < j < f.push(l).len() implies id_lt(f.push(l)[i], f.push(l)[j]) by {
                if j == f.len() {
                    assert(f.contains(f[i]));
                }
            }
        }
        assert forall|x: ID| #[trigger] s.filter(p).contains(x) <==> (s.contains(x) && p(x)) by {
            if s.contains(x) && x != l {
                let i = choose|i: int| 0 <= i < s.len() && s[i] == x;
                assert(i != s.len() - 1);
                assert(d[i] == x);
            }
            if d.contains(x) {
                let i = choose|i: int| 0 <= i < d.len() && d[i] == x;
                assert(s[i] == x);
            }
            if p(l) {
                if f.push(l).contains(x) && x != l {
                    let i = choose|i: int| 0 <= i < f.push(l).len() && f.push(l)[i] == x;
                    assert(f[i] == x);
                }
                if x == l {
                    assert(f.push(l)[f.len() as int] == x);
                }
                if f.contains(x) {
                    let i = choose|i: int| 0 <= i < f.len() && f[i] == x;
                    assert(f.push(l)[i] == x);
                }
            }
            if s.contains(x) && x == l {
                assert(s[s.len() - 1] == x);
            }
        }
    }
}


/// An ascending sequence of identities has no repeats.
pub proof fn lemma_sorted_no_dups(s: Seq<ID>)
    requires
        sorted_ids(s),
    ensures
        s.no_duplicates(),
{
    assert forall|i: int, j: int| 0 <= i < s.len() && 0 <= j < s.len() && i != j implies s[i] != s[j] by {
        if i < j {
            assert(id_lt(s[i], s[j]));
        } else {
            assert(id_lt(s[j], s[i]));
        }
    }
}

/// The map a list of entries describes; a later entry replaces an earlier one.
pub open spec fn fold_pairs<V>(s: Seq<(ID, V)>) -> Map<ID, V>
    decreases s.len(),
{
    if s.len() == 0 { Map::empty() } else { fold_pairs(s.drop_last()).insert(s.last().0, s.last().1) }
}

/// With ascending keys, the entries describe exactly the map.
pub proof fn lemma_fold_view<V>(m: &IdMap<V>)
    requires
        m.wf(),
    ensures
        fold_pairs(m.entries@) == m@,
{
    lemma_fold_sorted(m.entries@);
}

proof fn lemma_fold_sorted<V>(s: Seq<(ID, V)>)
    requires
        sorted_ids(Seq::new(s.len(), |i: int| s[i].0)),
    ensures
        fold_pairs(s) == Map::new(
            |k: ID| Seq::new(s.len(), |i: int| s[i].0).contains(k),
            |k: ID| s[Seq::new(s.len(), |i: int| s[i].0).index_of(k)].1,
        ),
    decreases s.len(),
{
    let keys = Seq::new(s.len(), |i: int| s[i].0);
    let target = Map::new(|k: ID| keys.contains(k), |k: ID| s[keys.index_of(k)].1);
    if s.len() == 0 {
        assert(fold_pairs(s) =~= target);
    } else {
        let t = s.drop_last();
        let tkeys = Seq::new(t.len(), |i: int| t[i].0);
        assert(sorted_ids(tkeys)) by {
            assert forall|i: int, j: int| 0 <= i < j < tkeys.len() implies id_lt(tkeys[i], tkeys[j]) by {
                assert(tkeys[i] == keys[i] && tkeys[j] == keys[j]);
            }
        }
        lemma_fold_sorted(t);
        let last = s.len() - 1;
        lemma_sorted_no_dups(keys);
        assert forall|k: ID| #[trigger] fold_pairs(s).contains_key(k) <==> target.contains_key(k) by {
            if keys.contains(k) && k != s.last().0 {
                let i = choose|i: int| 0 <= i < keys.len() && keys[i] == k;
                assert(i != last);
                assert(tkeys[i] == k);
            }
            if tkeys.contains(k) {
                let i = choose|i: int| 0 <= i < tkeys.len() && tkeys[i] == k;
                assert(keys[i] == k);
            }
            if k == s.last().0 {
                assert(keys[last] == k);
            }
        }
        assert forall|k: ID| #[trigger] fold_pairs(s).contains_key(k) implies fold_pairs(s)[k] == target[k] by {
            if k == s.last().0 {
                assert(keys[last] == k);
                assert(keys.contains(k));
                let j = keys.index_of(k);
                assert(0 <= j < keys.len() && keys[j] == k);
                assert(j == last);
            } else {
                assert(tkeys.contains(k));
                let i = tkeys.index_of(k);
                assert(0 <= i < tkeys.len() && tkeys[i] == k);
                assert(keys[i] == k);
                assert(keys.contains(k));
                let j = keys.index_of(k);
                assert(0 <= j < keys.len() && keys[j] == k);
                assert(j == i);
                assert(fold_pairs(t)[k] == s[i].1);
            }
        }
        assert(fold_pairs(s) =~= target);
    }
}

} // verus!
