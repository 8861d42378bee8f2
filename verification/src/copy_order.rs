//! Keys for copied edges: when a copy gives edges fresh identities, equal keys
//! would be tie-broken differently, so copies that share a key with existing
//! edges are moved into strict gaps that keep the original order.
use vstd::prelude::*;
use crate::ids::GraphEdgeId;
use crate::position::{GraphPosition, GraphOrderError, lex_lt, lemma_lex_transitive, lemma_lex_asymmetric, increasing_between};

verus! {

/// Where a planned key goes: into a create operation of the plan (by index), or
/// to an existing edge as an order write.
#[derive(Clone, Copy, Debug, PartialEq, Eq, Structural)]
pub enum Destination {
    Create(usize),
    Existing(GraphEdgeId),
}

/// One edge of a source's out-sequence, with its planned key.
#[derive(Clone, Debug)]
pub struct CopyOrderEdge {
    pub id: GraphEdgeId,
    pub position: GraphPosition,
    pub destination: Destination,
}

pub open spec fn opt_view(o: Option<GraphPosition>) -> Option<Seq<u8>> {
    match o {
        Some(p) => Some(p@),
        None => None,
    }
}

pub open spec fn pos(s: Seq<CopyOrderEdge>, i: int) -> Seq<u8> {
    s[i].position@
}

/// Keys never decrease along the sequence.
pub open spec fn sorted_positions(s: Seq<CopyOrderEdge>) -> bool {
    forall|i: int, j: int| 0 <= i < j < s.len() ==> pos(s, i) == pos(s, j) || lex_lt(pos(s, i), pos(s, j))
}

/// The first `n` final keys keep the sequence order: each pair is strictly
/// increasing, except pairs of unmoved edges of one kind that share their key.
pub open spec fn order_kept(s: Seq<CopyOrderEdge>, keys: Seq<Seq<u8>>, moved: Seq<bool>, n: int) -> bool {
    forall|i: int, j: int| 0 <= i < j < n ==> lex_lt(#[trigger] keys[i], #[trigger] keys[j]) || (keys[i] == keys[j] && moved[i] == false && moved[j] == false
        && (s[i].destination is Create <==> s[j].destination is Create))
}

/// `a` assigns new keys to the positions `ix` of the sequence, in order; `keys`
/// are the final keys (assigned, or unchanged where nothing was assigned).
pub open spec fn assignment_ok(
    s: Seq<CopyOrderEdge>,
    ix: Seq<int>,
    keys: Seq<Seq<u8>>,
    moved: Seq<bool>,
    a: Seq<(Destination, GraphPosition)>,
) -> bool {
    &&& keys.len() == s.len() && moved.len() == s.len() && ix.len() == a.len()
    &&& forall|k: int| 0 <= k < ix.len() ==> 0 <= #[trigger] ix[k] < s.len() && moved[ix[k]] && a[k].0 == s[ix[k]].destination
        && a[k].1@ == keys[ix[k]]
    &&& forall|k: int, l: int| 0 <= k < l < ix.len() ==> #[trigger] ix[k] < #[trigger] ix[l]
    &&& forall|i: int| 0 <= i < s.len() && #[trigger] moved[i] ==> exists|k: int| 0 <= k < ix.len() && ix[k] == i
    &&& forall|i: int| 0 <= i < s.len() && (#[trigger] moved[i]) == false ==> keys[i] == pos(s, i)
    &&& order_kept(s, keys, moved, s.len() as int)
}

/// Some copy shares its key with an existing edge.
pub open spec fn has_mixed_group(s: Seq<CopyOrderEdge>) -> bool {
    exists|i: int, j: int|
        0 <= i < s.len() && 0 <= j < s.len() && #[trigger] pos(s, i) == #[trigger] pos(s, j) && s[i].destination is Create
            && s[j].destination is Existing
}

/// Entry `i` gets a new key: its equal-key group holds an existing edge and `i`
/// is among the copies before the first one, or comes at or after a copy that
/// follows an existing edge of the group.
#[verifier::opaque]
pub open spec fn moves(s: Seq<CopyOrderEdge>, i: int) -> bool {
    ||| (forall|j: int| 0 <= j <= i && #[trigger] pos(s, j) == pos(s, i) ==> s[j].destination is Create)
        && (exists|j: int| i < j < s.len() && #[trigger] pos(s, j) == pos(s, i) && s[j].destination is Existing)
    ||| exists|k: int, j: int|
        0 <= k < j <= i && #[trigger] pos(s, k) == pos(s, i) && #[trigger] pos(s, j) == pos(s, i) && s[k].destination is Existing
            && s[j].destination is Create
}

/// Outside a maximal run of equal keys, no key equals the run's.
proof fn lemma_outside_group(s: Seq<CopyOrderEdge>, start: int, end: int, j: int)
    requires
        sorted_positions(s),
        0 <= start < end <= s.len(),
        forall|i: int| start <= i < end ==> pos(s, i) == pos(s, start),
        start > 0 ==> pos(s, start - 1) != pos(s, start),
        end < s.len() ==> pos(s, end) != pos(s, start),
        0 <= j < s.len(),
        !(start <= j < end),
    ensures
        pos(s, j) != pos(s, start),
{
    let p = pos(s, start);
    if j < start {
        let q = pos(s, start - 1);
        assert(q == p || lex_lt(q, p));
        assert(lex_lt(q, p));
        if pos(s, j) == p {
            if j < start - 1 {
                assert(pos(s, j) == q || lex_lt(pos(s, j), q));
                lemma_lex_asymmetric(q, p);
            }
        }
    } else {
        let q = pos(s, end);
        assert(p == q || lex_lt(p, q));
        assert(lex_lt(p, q));
        if pos(s, j) == p {
            if j > end {
                assert(q == pos(s, j) || lex_lt(q, pos(s, j)));
                lemma_lex_asymmetric(p, q);
            }
        }
    }
}

/// Which entries of one group move: the leading copies and everything from the
/// first copy after the existing run on, when the group holds an existing edge.
proof fn lemma_moves_group(s: Seq<CopyOrderEdge>, start: int, fe: int, ss: int, end: int, i: int)
    requires
        sorted_positions(s),
        0 <= start <= fe <= ss <= end <= s.len(),
        start < end,
        forall|t: int| start <= t < end ==> pos(s, t) == pos(s, start),
        start > 0 ==> pos(s, start - 1) != pos(s, start),
        end < s.len() ==> pos(s, end) != pos(s, start),
        forall|t: int| start <= t < fe ==> (#[trigger] s[t]).destination is Create,
        fe < end ==> s[fe].destination is Existing,
        forall|t: int| fe <= t < ss ==> (#[trigger] s[t]).destination is Existing,
        fe < end && ss < end ==> s[ss].destination is Create,
        fe == end ==> ss == end,
        start <= i < end,
    ensures
        moves(s, i) == (fe < end && ((start <= i < fe) || (ss <= i < end))),
{
    reveal(moves);
    let p = pos(s, start);
    assert(pos(s, i) == p);
    assert forall|j: int| 0 <= j < s.len() && pos(s, j) == p implies start <= j < end by {
        if !(start <= j < end) {
            lemma_outside_group(s, start, end, j);
        }
    }
    if fe < end {
        if i < fe {
            assert(pos(s, fe) == p);
        } else if i < ss {
            if moves(s, i) {
                if forall|j: int| 0 <= j <= i && #[trigger] pos(s, j) == pos(s, i) ==> s[j].destination is Create {
                    assert(pos(s, fe) == p);
                } else {
                    let (k, j) = choose|k: int, j: int|
                        0 <= k < j <= i && #[trigger] pos(s, k) == pos(s, i) && #[trigger] pos(s, j) == pos(s, i) && s[k].destination is Existing
                            && s[j].destination is Create;
                    assert(start <= k < end && start <= j < end);
                }
            }
        } else {
            assert(pos(s, fe) == p && pos(s, ss) == p);
        }
    } else {
        if moves(s, i) {
            if forall|j: int| 0 <= j <= i && #[trigger] pos(s, j) == pos(s, i) ==> s[j].destination is Create {
                let j = choose|j: int| i < j < s.len() && #[trigger] pos(s, j) == pos(s, i) && s[j].destination is Existing;
                assert(start <= j < end);
            } else {
                let (k, j) = choose|k: int, j: int|
                    0 <= k < j <= i && #[trigger] pos(s, k) == pos(s, i) && #[trigger] pos(s, j) == pos(s, i) && s[k].destination is Existing
                        && s[j].destination is Create;
                assert(start <= k < end);
            }
        }
    }
}

/// `a` equals `b` or comes before it.
pub open spec fn lex_le(a: Seq<u8>, b: Seq<u8>) -> bool {
    a == b || lex_lt(a, b)
}

proof fn lemma_le_lt(a: Seq<u8>, b: Seq<u8>, c: Seq<u8>)
    requires
        lex_le(a, b),
        lex_lt(b, c),
    ensures
        lex_lt(a, c),
{
    if a != b {
        lemma_lex_transitive(a, b, c);
    }
}

/// Within one group of equal keys `p` at `[start, end)`: copies before the
/// first existing edge, then the existing run, then everything from the next
/// copy on. Extends the kept order from `start` to `end`.
proof fn lemma_group(
    s: Seq<CopyOrderEdge>,
    keys: Seq<Seq<u8>>,
    moved: Seq<bool>,
    start: int,
    fe: int,
    ss: int,
    end: int,
    p: Seq<u8>,
    left: Option<Seq<u8>>,
)
    requires
        0 <= start <= fe <= ss <= end <= s.len(),
        start < end,
        keys.len() >= end,
        moved.len() >= end,
        order_kept(s, keys, moved, start),
        forall|i: int| 0 <= i < start ==> lex_lt(#[trigger] keys[i], p),
        left matches Some(l) ==> forall|i: int| 0 <= i < start ==> lex_le(#[trigger] keys[i], l),
        left is None ==> start == 0,
        forall|i: int| start <= i < fe ==> (#[trigger] s[i]).destination is Create,
        // copies before the existing run: fresh increasing keys between `left` and `p`
        fe < end ==> forall|i: int| start <= i < fe ==> #[trigger] moved[i] && lex_lt(keys[i], p)
            && (left matches Some(l) ==> lex_lt(l, keys[i])),
        fe < end ==> forall|i: int, j: int| start <= i < j < fe ==> lex_lt(#[trigger] keys[i], #[trigger] keys[j]),
        // the existing run keeps `p`
        forall|i: int| fe <= i < ss ==> (#[trigger] moved[i]) == false && keys[i] == p && s[i].destination is Existing,
        // from the next copy on: fresh increasing keys above `p`
        forall|i: int| ss <= i < end ==> #[trigger] moved[i] && lex_lt(p, keys[i]),
        forall|i: int, j: int| ss <= i < j < end ==> lex_lt(#[trigger] keys[i], #[trigger] keys[j]),
        // a group without existing edges is left alone
        fe == end ==> ss == end,
        fe == end ==> forall|i: int| start <= i < end ==> (#[trigger] moved[i]) == false && keys[i] == p,
    ensures
        order_kept(s, keys, moved, end),
{
    assert forall|i: int, j: int| 0 <= i < j < end implies lex_lt(#[trigger] keys[i], #[trigger] keys[j]) || (keys[i] == keys[j] && moved[i] == false && moved[j] == false
        && (s[i].destination is Create <==> s[j].destination is Create)) by {
        if j < start {
        } else if i < start {
            // earlier groups lie below `p` and below `left`
            assert(lex_lt(keys[i], p));
            if fe == end {
                assert(moved[j] == false); assert(keys[j] == p);
            } else if j < fe {
                assert(moved[j]);
                let l = left->0;
                assert(lex_le(keys[i], l));
                lemma_le_lt(keys[i], l, keys[j]);
            } else if j < ss {
                assert(moved[j] == false); assert(keys[j] == p);
            } else {
                assert(moved[j]);
                lemma_lex_transitive(keys[i], p, keys[j]);
            }
        } else if fe == end {
            assert(start <= i < end);
            assert(start <= j < end);
            assert(moved[i] == false);
            assert(keys[i] == p);
            assert(moved[j] == false); assert(keys[j] == p);
        } else if j < fe {
        } else if i < fe {
            assert(moved[i]);
            if j < ss {
                assert(moved[j] == false); assert(keys[j] == p);
            } else {
                assert(moved[j]);
                lemma_lex_transitive(keys[i], p, keys[j]);
            }
        } else if i < ss {
            assert(moved[i] == false); assert(keys[i] == p);
            if j < ss {
                assert(moved[j] == false); assert(keys[j] == p);
            } else {
                assert(moved[j]);
            }
        } else {
        }
    }
}

/// Append each key with the destination of the sequence entry it belongs to,
/// those entries starting at `from`.
fn push_keys(out: &mut Vec<(Destination, GraphPosition)>, sequence: &Vec<CopyOrderEdge>, from: usize, keys: &Vec<GraphPosition>)
    requires
        from + keys@.len() <= sequence.len(),
    ensures
        final(out)@.len() == old(out)@.len() + keys@.len(),
        forall|q: int| 0 <= q < old(out)@.len() ==> final(out)@[q] == old(out)@[q],
        forall|q: int| 0 <= q < keys@.len() ==> (#[trigger] final(out)@[old(out)@.len() + q]).0 == sequence@[from + q].destination
            && final(out)@[old(out)@.len() + q].1@ == keys@[q]@,
{
    let ghost out0 = out@;
    let mut k: usize = 0;
    while k < keys.len()
        invariant
            from + keys@.len() <= sequence.len(),
            k <= keys@.len(),
            out@.len() == out0.len() + k,
            forall|q: int| 0 <= q < out0.len() ==> out@[q] == out0[q],
            forall|q: int| 0 <= q < k ==> (#[trigger] out@[out0.len() + q]).0 == sequence@[from + q].destination
                && out@[out0.len() + q].1@ == keys@[q]@,
        decreases keys@.len() - k,
    {
        out.push((sequence[from + k].destination, keys[k].clone()));
        k += 1;
    }
}

/// Plan keys for one source's out-sequence, sorted by key. In each group of equal
/// keys that mixes copies and existing edges, the copies before the first existing
/// edge move into the gap below the group, and everything from the first later
/// copy on moves into the gap above it.
pub fn assign_mixed_groups(sequence: &Vec<CopyOrderEdge>, jitter: u8) -> (r: Result<Vec<(Destination, GraphPosition)>, GraphOrderError>)
    requires
        sorted_positions(sequence@),
    ensures
        r matches Ok(a) ==> exists|ix: Seq<int>, keys: Seq<Seq<u8>>, moved: Seq<bool>| #[trigger] assignment_ok(sequence@, ix, keys, moved, a@)
            && forall|i: int| 0 <= i < sequence@.len() ==> moved[i] == moves(sequence@, i),
        // Without a group that mixes copies and existing edges no key is allocated.
        !has_mixed_group(sequence@) ==> (r matches Ok(a) && a@.len() == 0),
        // without jitter, room for one byte per entry beyond every key is enough
        jitter == 0 && (forall|i: int| 0 <= i < sequence@.len() ==> pos(sequence@, i).len() + sequence@.len()
            <= crate::position::MAX_GRAPH_POSITION_BYTES) ==> r is Ok,
{
    let ghost s = sequence@;
    let n = sequence.len();
    let mut out: Vec<(Destination, GraphPosition)> = Vec::new();
    let ghost mut ix: Seq<int> = Seq::empty();
    let ghost mut keys: Seq<Seq<u8>> = Seq::new(n as nat, |i: int| pos(s, i));
    let ghost mut moved: Seq<bool> = Seq::new(n as nat, |i: int| false);
    let mut start: usize = 0;
    let mut left: Option<GraphPosition> = None;
    let ghost room = jitter == 0 && (forall|i: int| 0 <= i < s.len() ==> pos(s, i).len() + s.len()
        <= crate::position::MAX_GRAPH_POSITION_BYTES);
    while start < n
        invariant
            room == (jitter == 0 && (forall|i: int| 0 <= i < s.len() ==> pos(s, i).len() + s.len()
                <= crate::position::MAX_GRAPH_POSITION_BYTES)),
            room ==> (left matches Some(l) ==> l@.len() + n <= crate::position::MAX_GRAPH_POSITION_BYTES + start),
            s == sequence@,
            n == s.len(),
            sorted_positions(s),
            start <= n,
            progress_ok(s, ix, keys, moved, out@, start as int),
            left is None ==> start == 0,
            left matches Some(l) ==> forall|i: int| 0 <= i < start ==> lex_le(#[trigger] keys[i], l@),
            start < n ==> forall|i: int| 0 <= i < start ==> lex_lt(#[trigger] keys[i], pos(s, start as int)),
            start < n ==> (left matches Some(l) ==> lex_lt(l@, pos(s, start as int))),
            !has_mixed_group(s) ==> out@.len() == 0,
            moved.len() == n,
            forall|i: int| 0 <= i < start ==> #[trigger] moved[i] == moves(s, i),
            forall|i: int| start <= i < n ==> !#[trigger] moved[i],
            start > 0 && start < n ==> pos(s, start - 1) != pos(s, start as int),
        decreases n - start,
    {
        let ghost p = pos(s, start as int);
        let mut end: usize = start + 1;
        while end < n && sequence[end].position.same(&sequence[start].position)
            invariant
                s == sequence@,
                n == s.len(),
                start < end <= n,
                forall|i: int| start <= i < end ==> pos(s, i) == p,
                p == pos(s, start as int),
            decreases n - end,
        {
            end += 1;
        }
        proof {
            if end < n {
                assert(pos(s, end as int) != p);
                assert(lex_lt(p, pos(s, end as int)));
            }
        }
        let mut fe: usize = start;
        while fe < end && matches!(sequence[fe].destination, Destination::Create(_))
            invariant
                s == sequence@,
                forall|i: int| start <= i < end ==> pos(s, i) == p,
                p == pos(s, start as int),
                end < n ==> lex_lt(p, pos(s, end as int)),
                start <= fe <= end,
                end <= n,
                n == s.len(),
                forall|i: int| start <= i < fe ==> (#[trigger] s[i]).destination is Create,
            decreases end - fe,
        {
            fe += 1;
        }
        let ghost left_s: Option<Seq<u8>> = opt_view(left);
        match &left {
            Some(l) => {
                proof { use_type_invariant(l); }
            },
            None => {},
        }
        proof {
            if !has_mixed_group(s) && fe < end && start < fe {
                assert(pos(s, start as int) == pos(s, fe as int));
                assert(s[start as int].destination is Create);
            }
        }
        if fe < end {
            let position = sequence[start].position.clone();
            proof { use_type_invariant(&position); }
            let prefix = match GraphPosition::evenly(left.as_ref(), Some(&position), fe - start, jitter) {
                Ok(v) => v,
                Err(e) => {
                    return Err(e);
                },
            };
            let mut ss: usize = fe;
            while ss < end && matches!(sequence[ss].destination, Destination::Existing(_))
                invariant
                    s == sequence@,
                    forall|i: int| start <= i < end ==> pos(s, i) == p,
                    p == pos(s, start as int),
                    end < n ==> lex_lt(p, pos(s, end as int)),
                    fe <= ss <= end,
                    end <= n,
                    n == s.len(),
                    forall|i: int| fe <= i < ss ==> (#[trigger] s[i]).destination is Existing,
                decreases end - ss,
            {
                ss += 1;
            }
            proof {
                if !has_mixed_group(s) && ss < end {
                    assert(pos(s, ss as int) == pos(s, fe as int));
                    assert(s[ss as int].destination is Create);
                }
            }
            let ghost right_s: Option<Seq<u8>> = if end < n { Some(pos(s, end as int)) } else { None };
            let suffix = if ss < end {
                let right = if end < n {
                    let rp = &sequence[end].position;
                    proof { use_type_invariant(rp); }
                    Some(rp)
                } else {
                    None
                };
                match GraphPosition::evenly(Some(&position), right, end - ss, jitter) {
                    Ok(v) => {
                        proof { assert(increasing_between(v@, Some(p), right_s)); }
                        v
                    },
                    Err(e) => {
                        return Err(e);
                    },
                }
            } else {
                Vec::new()
            };
            proof {
                assert(suffix@.len() == end - ss);
                assert(increasing_between(prefix@, left_s, Some(p)));
                assert(ss < end ==> increasing_between(suffix@, Some(p), right_s));
            }
            let ghost out0 = out@;
            let ghost ix0 = ix;
            let ghost keys0 = keys;
            let ghost moved0 = moved;
            push_keys(&mut out, sequence, start, &prefix);
            let ghost out1 = out@;
            push_keys(&mut out, sequence, ss, &suffix);
            proof {
                let np = prefix@.len() as int;
                let ns = suffix@.len() as int;
                ix = ix0 + Seq::new(np as nat, |q: int| start + q) + Seq::new(ns as nat, |q: int| ss + q);
                keys = Seq::new(n as nat, |i: int| if start <= i < fe { prefix@[i - start]@ } else if ss <= i < end { suffix@[i - ss]@ } else { keys0[i] });
                moved = Seq::new(n as nat, |i: int| (start <= i < fe) || (ss <= i < end) || moved0[i]);
                assert forall|i: int| 0 <= i < end implies #[trigger] moved[i] == moves(s, i) by {
                    if i >= start {
                        lemma_moves_group(s, start as int, fe as int, ss as int, end as int, i);
                    } else {
                        assert(moved0[i] == moves(s, i));
                    }
                }
                assert forall|i: int| end <= i < n implies !#[trigger] moved[i] by {
                    assert(!moved0[i]);
                }
                lemma_step_progress(s, ix0, keys0, moved0, out0, out@, ix, keys, moved, start as int, fe as int, ss as int, end as int, prefix@, suffix@);
                assert forall|i: int| start <= i < fe implies #[trigger] moved[i] && lex_lt(keys[i], p)
                    && (left_s matches Some(l) ==> lex_lt(l, keys[i])) by {
                    assert(keys[i] == prefix@[i - start]@);
                    assert(crate::position::strictly_between(left_s, prefix@[i - start]@, Some(p)));
                }
                assert forall|i: int, j: int| start <= i < j < fe implies lex_lt(#[trigger] keys[i], #[trigger] keys[j]) by {
                    assert(keys[i] == prefix@[i - start]@ && keys[j] == prefix@[j - start]@);
                    assert(lex_lt(prefix@[i - start]@, prefix@[j - start]@));
                }
                assert forall|i: int| fe <= i < ss implies (#[trigger] moved[i]) == false && keys[i] == p && s[i].destination is Existing by {
                    assert(moved[i] == false);
                    assert(keys[i] == pos(s, i));
                    assert(pos(s, i) == p);
                    assert(s[i].destination is Existing);
                }
                assert forall|i: int| ss <= i < end implies #[trigger] moved[i] && lex_lt(p, keys[i]) && (right_s matches Some(r) ==> lex_lt(keys[i], r)) by {
                    assert(keys[i] == suffix@[i - ss]@);
                    assert(crate::position::strictly_between(Some(p), suffix@[i - ss]@, right_s));
                }
                assert forall|i: int, j: int| ss <= i < j < end implies lex_lt(#[trigger] keys[i], #[trigger] keys[j]) by {
                    assert(keys[i] == suffix@[i - ss]@ && keys[j] == suffix@[j - ss]@);
                    assert(lex_lt(suffix@[i - ss]@, suffix@[j - ss]@));
                }
                assert forall|i: int| 0 <= i < start implies lex_lt(#[trigger] keys[i], p) by {
                    assert(keys[i] == keys0[i]);
                }
                if let Some(l) = left_s {
                    assert forall|i: int| 0 <= i < start implies lex_le(#[trigger] keys[i], l) by {
                        assert(keys[i] == keys0[i]);
                    }
                }
                lemma_group(s, keys, moved, start as int, fe as int, ss as int, end as int, p, left_s);
                // everything placed so far lies below the next group
                if end < n {
                    let r = pos(s, end as int);
                    assert(lex_lt(p, r));
                    assert forall|i: int| 0 <= i < end implies lex_lt(#[trigger] keys[i], r) by {
                        if i < start {
                            lemma_lex_transitive(keys[i], p, r);
                        } else if i < fe {
                            assert(moved[i]);
                            lemma_lex_transitive(keys[i], p, r);
                        } else if i < ss {
                            assert(moved[i] == false);
                            assert(keys[i] == p);
                        } else {
                            assert(moved[i]);
                        }
                    }
                }
            }
            if ss < end {
                let last = suffix.len() - 1;
                left = Some(suffix[last].clone());
                proof {
                    assert(keys[end - 1] == suffix@[last as int]@);
                    assert forall|i: int| 0 <= i < end implies lex_le(#[trigger] keys[i], left->0@) by {
                        lemma_order_max(s, keys, moved, end as int, i);
                    }
                }
            } else {
                left = Some(position);
                proof {
                    assert forall|i: int| 0 <= i < end implies lex_le(#[trigger] keys[i], p) by {
                        if i < start {
                        } else if i < fe {
                            assert(moved[i]);
                        } else {
                            assert(moved[i] == false);
                        }
                    }
                    if end < n {
                        assert(lex_lt(p, pos(s, end as int)));
                    }
                }
            }
        } else {
            left = Some(sequence[start].position.clone());
            proof {
                assert forall|i: int| 0 <= i < end implies #[trigger] moved[i] == moves(s, i) by {
                    if i >= start {
                        lemma_moves_group(s, start as int, fe as int, fe as int, end as int, i);
                    }
                }
                assert forall|i: int| start <= i < end implies (#[trigger] moved[i]) == false && keys[i] == p by {
                    assert(moved[i] == false);
                    assert(keys[i] == pos(s, i));
                    assert(pos(s, i) == p);
                }
                lemma_group(s, keys, moved, start as int, fe as int, fe as int, end as int, p, left_s);
                assert(tracking_ok(s, ix, keys, moved, out@, end as int)) by {
                    assert forall|k: int| 0 <= k < ix.len() implies 0 <= #[trigger] ix[k] < end by {}
                }
                assert forall|i: int| 0 <= i < end implies lex_le(#[trigger] keys[i], p) by {
                    if i >= start {
                        assert(moved[i] == false);
                    }
                }
                if end < n {
                    let r = pos(s, end as int);
                    assert forall|i: int| 0 <= i < end implies lex_lt(#[trigger] keys[i], r) by {
                        if i < start {
                            lemma_lex_transitive(keys[i], p, r);
                        } else {
                            assert(moved[i] == false);
                        }
                    }
                }
            }
        }
        start = end;
    }
    proof {
        assert(start == n);
        assert(tracking_ok(s, ix, keys, moved, out@, n as int));
        assert(order_kept(s, keys, moved, n as int));
        assert(s.len() == n);
        assert forall|i: int| 0 <= i < s.len() && #[trigger] moved[i] implies exists|k: int| 0 <= k < ix.len() && ix[k] == i by {
            assert(0 <= i < start);
        }
        assert forall|k: int| 0 <= k < ix.len() implies 0 <= #[trigger] ix[k] < s.len() && moved[ix[k]] && out@[k].0 == s[ix[k]].destination
            && out@[k].1@ == keys[ix[k]] by {
        }
        assert(order_kept(s, keys, moved, s.len() as int));
        assert(assignment_ok(s, ix, keys, moved, out@));
        assert(assignment_ok(sequence@, ix, keys, moved, out@));
    }
    let ghost fix = ix;
    let ghost fkeys = keys;
    let ghost fmoved = moved;
    let r: Result<Vec<(Destination, GraphPosition)>, GraphOrderError> = Ok(out);
    proof {
        assert(assignment_ok(sequence@, fix, fkeys, fmoved, r->Ok_0@));
        assert(forall|i: int| 0 <= i < sequence@.len() ==> fmoved[i] == moves(sequence@, i));
    }
    r
}

/// What the planning loop has established for the entries before `start`.
pub open spec fn progress_ok(
    s: Seq<CopyOrderEdge>,
    ix: Seq<int>,
    keys: Seq<Seq<u8>>,
    moved: Seq<bool>,
    out: Seq<(Destination, GraphPosition)>,
    start: int,
) -> bool {
    tracking_ok(s, ix, keys, moved, out, start) && order_kept(s, keys, moved, start)
}

/// The output lists exactly the moved entries before `start`, in order, with their keys.
pub open spec fn tracking_ok(
    s: Seq<CopyOrderEdge>,
    ix: Seq<int>,
    keys: Seq<Seq<u8>>,
    moved: Seq<bool>,
    out: Seq<(Destination, GraphPosition)>,
    start: int,
) -> bool {
    &&& 0 <= start <= s.len()
    &&& keys.len() == s.len() && moved.len() == s.len() && ix.len() == out.len()
    &&& forall|k: int| 0 <= k < ix.len() ==> 0 <= #[trigger] ix[k] < start && moved[ix[k]] && out[k].0 == s[ix[k]].destination
        && out[k].1@ == keys[ix[k]]
    &&& forall|k: int, l: int| 0 <= k < l < ix.len() ==> #[trigger] ix[k] < #[trigger] ix[l]
    &&& forall|i: int| 0 <= i < start && #[trigger] moved[i] ==> exists|k: int| 0 <= k < ix.len() && ix[k] == i
    &&& forall|i: int| 0 <= i < s.len() && (#[trigger] moved[i]) == false ==> keys[i] == pos(s, i)
    &&& forall|i: int| start <= i < s.len() ==> (#[trigger] moved[i]) == false
}

/// Each earlier final key is at most the last one.
proof fn lemma_order_max(s: Seq<CopyOrderEdge>, keys: Seq<Seq<u8>>, moved: Seq<bool>, m: int, i: int)
    requires
        order_kept(s, keys, moved, m),
        0 <= i < m,
    ensures
        lex_le(keys[i], keys[m - 1]),
{
    if i < m - 1 {
        assert(lex_lt(keys[i], keys[m - 1]) || keys[i] == keys[m - 1]);
    }
}

/// One group's keys are written into the final keys and the output.
proof fn lemma_step_progress(
    s: Seq<CopyOrderEdge>,
    ix0: Seq<int>,
    keys0: Seq<Seq<u8>>,
    moved0: Seq<bool>,
    out0: Seq<(Destination, GraphPosition)>,
    out: Seq<(Destination, GraphPosition)>,
    ix: Seq<int>,
    keys: Seq<Seq<u8>>,
    moved: Seq<bool>,
    start: int,
    fe: int,
    ss: int,
    end: int,
    prefix: Seq<GraphPosition>,
    suffix: Seq<GraphPosition>,
)
    requires
        progress_ok(s, ix0, keys0, moved0, out0, start),
        0 <= start <= fe < end <= s.len(),
        fe <= ss <= end,
        prefix.len() == fe - start,
        suffix.len() == end - ss,
        forall|i: int| fe <= i < ss ==> (#[trigger] s[i]).destination is Existing,
        out.len() == out0.len() + prefix.len() + suffix.len(),
        forall|q: int| 0 <= q < out0.len() ==> out[q] == out0[q],
        forall|q: int| 0 <= q < prefix.len() ==> (#[trigger] out[out0.len() + q]).0 == s[start + q].destination
            && out[out0.len() + q].1@ == prefix[q]@,
        forall|q: int| 0 <= q < suffix.len() ==> (#[trigger] out[out0.len() + prefix.len() + q]).0 == s[ss + q].destination
            && out[out0.len() + prefix.len() + q].1@ == suffix[q]@,
        ix == ix0 + Seq::new(prefix.len(), |q: int| start + q) + Seq::new(suffix.len(), |q: int| ss + q),
        keys == Seq::new(s.len(), |i: int| if start <= i < fe { prefix[i - start]@ } else if ss <= i < end { suffix[i - ss]@ } else { keys0[i] }),
        moved == Seq::new(s.len(), |i: int| (start <= i < fe) || (ss <= i < end) || moved0[i]),
    ensures
        tracking_ok(s, ix, keys, moved, out, end),
        order_kept(s, keys, moved, start),
        forall|i: int| 0 <= i < start ==> #[trigger] keys[i] == keys0[i],
        forall|i: int| start <= i < fe ==> #[trigger] moved[i] && keys[i] == prefix[i - start]@,
        forall|i: int| fe <= i < ss ==> (#[trigger] moved[i]) == false && keys[i] == pos(s, i),
        forall|i: int| ss <= i < end ==> #[trigger] moved[i] && keys[i] == suffix[i - ss]@,
{
    let n0 = ix0.len();
    let np = prefix.len() as int;
    assert forall|k: int| 0 <= k < ix.len() implies 0 <= #[trigger] ix[k] < end && moved[ix[k]] && out[k].0 == s[ix[k]].destination
        && out[k].1@ == keys[ix[k]] by {
        if k < n0 {
            assert(ix[k] == ix0[k]);
        } else if k < n0 + np {
            assert(ix[k] == start + (k - n0));
            assert(out[out0.len() + (k - n0)] == out[k]);
        } else {
            assert(ix[k] == ss + (k - n0 - np));
            assert(out[out0.len() + np + (k - n0 - np)] == out[k]);
        }
    }
    assert forall|k: int, l: int| 0 <= k < l < ix.len() implies #[trigger] ix[k] < #[trigger] ix[l] by {
        if l < n0 {
            assert(ix[k] == ix0[k] && ix[l] == ix0[l]);
        } else if k < n0 {
            assert(ix[k] == ix0[k]);
        }
    }
    assert forall|i: int| 0 <= i < end && #[trigger] moved[i] implies exists|k: int| 0 <= k < ix.len() && ix[k] == i by {
        if start <= i < fe {
            assert(ix[n0 + (i - start)] == i);
        } else if ss <= i < end {
            assert(ix[n0 + np + (i - ss)] == i);
        } else {
            assert(moved0[i]);
            let k = choose|k: int| 0 <= k < ix0.len() && ix0[k] == i;
            assert(ix[k] == i);
        }
    }
    assert forall|i: int, j: int| 0 <= i < j < start implies lex_lt(#[trigger] keys[i], #[trigger] keys[j]) || (keys[i] == keys[j] && moved[i] == false && moved[j] == false
        && (s[i].destination is Create <==> s[j].destination is Create)) by {
        assert(keys[i] == keys0[i] && keys[j] == keys0[j] && moved[i] == moved0[i] && moved[j] == moved0[j]);
        assert(lex_lt(keys0[i], keys0[j]) || (keys0[i] == keys0[j] && moved0[i] == false && moved0[j] == false
            && (s[i].destination is Create <==> s[j].destination is Create)));
    }
}

} // verus!
