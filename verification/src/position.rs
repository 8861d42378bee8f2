//! Outgoing-edge order keys: validated fractional positions compared as byte strings.
use vstd::prelude::*;
use vstd::string::StringSliceAdditionalSpecFns;

verus! {

/// Resource limit for one encoded position. Exceeding it fails before editing.
pub const MAX_GRAPH_POSITION_BYTES: usize = 4096;

/// The byte that terminates every canonical position.
pub const TERMINATOR: u8 = 128;

/// Lexicographic strict order on byte strings (a proper prefix is smaller).
pub open spec fn lex_lt(a: Seq<u8>, b: Seq<u8>) -> bool {
    exists|i: int| #[trigger] lex_split(a, b, i)
}

/// `i` is where `a` and `b` first differ, and `a` is the smaller one there.
pub open spec fn lex_split(a: Seq<u8>, b: Seq<u8>, i: int) -> bool {
    &&& 0 <= i <= a.len()
    &&& i < b.len()
    &&& forall|j: int| 0 <= j < i ==> a[j] == b[j]
    &&& (i == a.len() || a[i] < b[i])
}

pub open spec fn lex_le(a: Seq<u8>, b: Seq<u8>) -> bool {
    a == b || lex_lt(a, b)
}

/// A canonical position: nonempty, bounded, and terminated by 0x80.
pub open spec fn valid_position(s: Seq<u8>) -> bool {
    &&& 1 <= s.len() <= MAX_GRAPH_POSITION_BYTES
    &&& s[s.len() - 1] == TERMINATOR
}

/// `a` is a prefix of `b`.
pub open spec fn prefix_of(a: Seq<u8>, b: Seq<u8>) -> bool {
    a.len() <= b.len() && b.subrange(0, a.len() as int) == a
}

/// A key above `l` stays above it when extended.
proof fn lemma_extend_above(l: Seq<u8>, base: Seq<u8>, key: Seq<u8>)
    requires
        lex_lt(l, base),
        prefix_of(base, key),
    ensures
        lex_lt(l, key),
{
    let i = choose|i: int| lex_split(l, base, i);
    assert(key[i] == key.subrange(0, base.len() as int)[i]);
    assert forall|j: int| 0 <= j < i implies l[j] == key[j] by {
        assert(key[j] == key.subrange(0, base.len() as int)[j]);
    }
    assert(lex_split(l, key, i));
}

/// A key below `r` that is not a prefix of `r` stays below it when extended.
proof fn lemma_extend_below(base: Seq<u8>, key: Seq<u8>, r: Seq<u8>)
    requires
        lex_lt(base, r),
        !prefix_of(base, r),
        prefix_of(base, key),
    ensures
        lex_lt(key, r),
{
    let i = choose|i: int| lex_split(base, r, i);
    if i == base.len() {
        assert(r.subrange(0, base.len() as int) =~= base);
    }
    assert(key[i] == key.subrange(0, base.len() as int)[i]);
    assert forall|j: int| 0 <= j < i implies key[j] == r[j] by {
        assert(key[j] == key.subrange(0, base.len() as int)[j]);
    }
    assert(lex_split(key, r, i));
}

pub proof fn lemma_lex_irreflexive(a: Seq<u8>)
    ensures
        !lex_lt(a, a),
{
}

pub proof fn lemma_lex_asymmetric(a: Seq<u8>, b: Seq<u8>)
    requires
        lex_lt(a, b),
    ensures
        !lex_lt(b, a),
        a != b,
{
    let i = choose|i: int| lex_split(a, b, i);
    if lex_lt(b, a) {
        let k = choose|k: int| lex_split(b, a, k);
        if k < i {
            assert(a[k] == b[k]);
        } else if i < k {
            assert(a[i] == b[i]);
        }
    }
}

pub proof fn lemma_lex_transitive(a: Seq<u8>, b: Seq<u8>, c: Seq<u8>)
    requires
        lex_lt(a, b),
        lex_lt(b, c),
    ensures
        lex_lt(a, c),
{
    let i = choose|i: int| lex_split(a, b, i);
    let k = choose|k: int| lex_split(b, c, k);
    if i <= k {
        if i < k {
            assert(lex_split(a, c, i));
        } else {
            assert(lex_split(a, c, i));
        }
    } else {
        assert(lex_split(a, c, k));
    }
}

pub proof fn lemma_lex_total(a: Seq<u8>, b: Seq<u8>)
    requires
        a != b,
    ensures
        lex_lt(a, b) || lex_lt(b, a),
{
    // first index where they differ, or the shorter length
    let m = if a.len() < b.len() { a.len() as int } else { b.len() as int };
    if forall|j: int| 0 <= j < m ==> a[j] == b[j] {
        if a.len() < b.len() {
            assert(lex_split(a, b, m));
        } else if b.len() < a.len() {
            assert(lex_split(b, a, m));
        } else {
            assert(a =~= b);
        }
    } else {
        let d = choose|d: int| 0 <= d < m && a[d] != b[d];
        lemma_first_difference(a, b, d);
    }
}

proof fn lemma_first_difference(a: Seq<u8>, b: Seq<u8>, d: int)
    requires
        0 <= d < a.len(),
        d < b.len(),
        a[d] != b[d],
    ensures
        lex_lt(a, b) || lex_lt(b, a),
    decreases d,
{
    if exists|e: int| 0 <= e < d && a[e] != b[e] {
        let e = choose|e: int| 0 <= e < d && a[e] != b[e];
        lemma_first_difference(a, b, e);
    } else if a[d] < b[d] {
        assert(lex_split(a, b, d));
    } else {
        assert(lex_split(b, a, d));
    }
}

/// Executable lexicographic comparison.
pub fn bytes_less(a: &[u8], b: &[u8]) -> (r: bool)
    ensures
        r == lex_lt(a@, b@),
{
    let mut i: usize = 0;
    while i < a.len() && i < b.len()
        invariant
            i <= a@.len(),
            i <= b@.len(),
            forall|j: int| 0 <= j < i ==> a@[j] == b@[j],
        decreases a@.len() - i,
    {
        if a[i] != b[i] {
            let r = a[i] < b[i];
            proof {
                if r {
                    assert(lex_split(a@, b@, i as int));
                } else {
                    assert(lex_split(b@, a@, i as int));
                    lemma_lex_asymmetric(b@, a@);
                }
            }
            return r;
        }
        i += 1;
    }
    proof {
        if i == a@.len() && i < b@.len() {
            assert(lex_split(a@, b@, i as int));
        } else {
            if lex_lt(a@, b@) {
                let k = choose|k: int| lex_split(a@, b@, k);
                if k < i {
                    assert(a@[k] == b@[k]);
                }
            }
        }
    }
    i == a.len() && i < b.len()
}

pub fn bytes_equal(a: &[u8], b: &[u8]) -> (r: bool)
    ensures
        r == (a@ == b@),
{
    if a.len() != b.len() {
        return false;
    }
    let mut i: usize = 0;
    while i < a.len()
        invariant
            a@.len() == b@.len(),
            i <= a@.len(),
            forall|j: int| 0 <= j < i ==> a@[j] == b@[j],
        decreases a@.len() - i,
    {
        if a[i] != b[i] {
            return false;
        }
        i += 1;
    }
    assert(a@ =~= b@);
    true
}

pub fn copy_bytes(a: &[u8]) -> (r: Vec<u8>)
    ensures
        r@ == a@,
{
    let mut r: Vec<u8> = Vec::new();
    let mut i: usize = 0;
    while i < a.len()
        invariant
            i <= a@.len(),
            r@ == a@.subrange(0, i as int),
        decreases a@.len() - i,
    {
        r.push(a[i]);
        i += 1;
        assert(r@ =~= a@.subrange(0, i as int));
    }
    assert(r@ =~= a@);
    r
}

/// A canonical fractional key: nonempty, at most 4096 bytes, terminated by 0x80.
/// Positions are compared lexicographically as byte strings.
#[derive(Debug, PartialEq, Eq, Hash, PartialOrd, Ord)]
pub struct GraphPosition {
    bytes: Vec<u8>,
}

impl Clone for GraphPosition {
    fn clone(&self) -> (r: GraphPosition)
        ensures
            r@ == self@,
    {
        self.duplicate()
    }
}

impl View for GraphPosition {
    type V = Seq<u8>;

    closed spec fn view(&self) -> Seq<u8> {
        self.bytes@
    }
}

/// Why an order request could not be served.
#[derive(Debug, Clone, Copy, PartialEq, Eq, Structural)]
pub enum GraphOrderError {
    /// Graph source or endpoint does not exist in this graph.
    MissingNode,
    /// Graph edge is missing or not visible.
    EdgeNotVisible,
    /// Graph order anchor is missing or not visible.
    AnchorNotVisible,
    /// Graph order anchor belongs to another source.
    CrossSource,
    /// Invalid Graph position encoding or interval.
    InvalidPosition,
    /// Graph position exceeds 4096 bytes.
    PositionTooLong,
}

impl GraphPosition {
    /// Every position is canonical; constructors establish it and nothing changes the bytes.
    #[verifier::type_invariant]
    pub closed spec fn wf(&self) -> bool {
        valid_position(self.bytes@)
    }

    /// The default position `[0x80]`.
    pub fn default_position() -> (r: GraphPosition)
        ensures
            r.wf(),
            r@ == seq![TERMINATOR],
    {
        let mut bytes: Vec<u8> = Vec::new();
        bytes.push(TERMINATOR);
        proof { assert(bytes@ =~= seq![TERMINATOR]); }
        GraphPosition { bytes }
    }

    pub fn try_from_bytes(bytes: Vec<u8>) -> (r: Result<GraphPosition, GraphOrderError>)
        ensures
            bytes@.len() > MAX_GRAPH_POSITION_BYTES ==> r == Err::<GraphPosition, _>(
                GraphOrderError::PositionTooLong,
            ),
            bytes@.len() <= MAX_GRAPH_POSITION_BYTES && !valid_position(bytes@) ==> r == Err::<
                GraphPosition,
                _,
            >(GraphOrderError::InvalidPosition),
            valid_position(bytes@) ==> (r matches Ok(p) && p.wf() && p@ == bytes@),
    {
        if bytes.len() > MAX_GRAPH_POSITION_BYTES {
            return Err(GraphOrderError::PositionTooLong);
        }
        if bytes.len() == 0 || bytes[bytes.len() - 1] != TERMINATOR {
            return Err(GraphOrderError::InvalidPosition);
        }
        Ok(GraphPosition { bytes })
    }

    pub fn as_bytes(&self) -> (r: &[u8])
        ensures
            r@ == self@,
    {
        self.bytes.as_slice()
    }

    /// A copy with the same bytes.
    pub fn duplicate(&self) -> (r: GraphPosition)
        ensures
            r@ == self@,
            r.wf(),
    {
        proof { use_type_invariant(self); }
        GraphPosition { bytes: copy_bytes(self.bytes.as_slice()) }
    }

    pub fn less(&self, other: &GraphPosition) -> (r: bool)
        ensures
            r == lex_lt(self@, other@),
    {
        bytes_less(self.bytes.as_slice(), other.bytes.as_slice())
    }

    pub fn same(&self, other: &GraphPosition) -> (r: bool)
        ensures
            r == (self@ == other@),
    {
        bytes_equal(self.bytes.as_slice(), other.bytes.as_slice())
    }

    pub proof fn lemma_view_wf(&self)
        ensures
            self.wf() <==> valid_position(self@),
    {
    }
}


/// The value of an ASCII hexadecimal digit (either case).
pub open spec fn hex_digit(c: u8) -> Option<u8> {
    if 48 <= c <= 57 {
        Some((c - 48) as u8)
    } else if 97 <= c <= 102 {
        Some((c - 87) as u8)
    } else if 65 <= c <= 70 {
        Some((c - 55) as u8)
    } else {
        None
    }
}

/// Every character of the text is a hexadecimal digit.
pub open spec fn all_hex_digits(t: Seq<u8>) -> bool {
    forall|i: int| 0 <= i < t.len() ==> (#[trigger] hex_digit(t[i])) is Some
}

/// The bytes that a string of hexadecimal digit pairs denotes.
pub open spec fn decode_hex(t: Seq<u8>) -> Seq<u8> {
    Seq::new(
        t.len() / 2,
        |i: int| (hex_digit(t[2 * i]).unwrap() * 16 + hex_digit(t[2 * i + 1]).unwrap()) as u8,
    )
}

fn hex_digit_exec(c: u8) -> (r: Option<u8>)
    ensures
        r == hex_digit(c),
{
    if 48 <= c && c <= 57 {
        Some(c - 48)
    } else if 97 <= c && c <= 102 {
        Some(c - 87)
    } else if 65 <= c && c <= 70 {
        Some(c - 55)
    } else {
        None
    }
}

/// Decode pairs of hexadecimal digits; `None` at the first non-digit.
pub fn decode_hex_pairs(t: &[u8]) -> (r: Option<Vec<u8>>)
    requires
        t@.len() % 2 == 0,
    ensures
        all_hex_digits(t@) ==> (r matches Some(v) && v@ == decode_hex(t@)),
        !all_hex_digits(t@) ==> r is None,
{
    let mut out: Vec<u8> = Vec::new();
    let mut i: usize = 0;
    while i < t.len()
        invariant
            t@.len() % 2 == 0,
            i % 2 == 0,
            i <= t@.len(),
            out@.len() == i / 2,
            forall|j: int| 0 <= j < i ==> (#[trigger] hex_digit(t@[j])) is Some,
            forall|j: int| 0 <= j < out@.len() ==> out@[j] == decode_hex(t@)[j],
        decreases t@.len() - i,
    {
        let hi = hex_digit_exec(t[i]);
        let lo = hex_digit_exec(t[i + 1]);
        match (hi, lo) {
            (Some(h), Some(l)) => {
                assert(h < 16 && l < 16);
                out.push(h * 16 + l);
                proof {
                    assert(hex_digit(t@[i as int]) is Some);
                    assert(hex_digit(t@[i + 1]) is Some);
                    assert(2 * (i as int / 2) == i);
                }
                i += 2;
            },
            _ => {
                return None;
            },
        }
    }
    proof {
        assert(out@ =~= decode_hex(t@));
    }
    Some(out)
}

/// Names what `fractional_index::FractionalIndex::new` returns for two optional
/// bounds given by their bytes: the bytes of the new key, or `None`.
pub uninterp spec fn fractional_new(lower: Option<Seq<u8>>, upper: Option<Seq<u8>>) -> Option<Seq<u8>>;

/// The length of an optional bound; an absent bound counts as empty.
pub open spec fn opt_len(o: Option<Seq<u8>>) -> int {
    match o {
        Some(b) => b.len() as int,
        None => 0,
    }
}

/// The longer of two optional bounds.
pub open spec fn bound_len(lower: Option<Seq<u8>>, upper: Option<Seq<u8>>) -> int {
    if opt_len(lower) < opt_len(upper) { opt_len(upper) } else { opt_len(lower) }
}

/// Nonempty and ending with the terminator byte.
pub open spec fn terminated(s: Seq<u8>) -> bool {
    s.len() >= 1 && s[s.len() - 1] == TERMINATOR
}

pub open spec fn opt_bytes(o: Option<&[u8]>) -> Option<Seq<u8>> {
    match o {
        Some(b) => Some(b@),
        None => None,
    }
}

/// Inputs on which `FractionalIndex::new` returns without panicking: terminated
/// bounds and, for two bounds, an ordered pair that differs at its first byte
/// unless one of them has length one.
pub open spec fn fractional_new_accepts(lower: Option<Seq<u8>>, upper: Option<Seq<u8>>) -> bool {
    &&& lower matches Some(l) ==> terminated(l)
    &&& upper matches Some(u) ==> terminated(u)
    &&& match (lower, upper) {
        (Some(l), Some(u)) => lex_lt(l, u) && (l.len() == 1 || u.len() == 1 || l[0] != u[0]),
        _ => true,
    }
}

/// Calls `fractional_index::FractionalIndex::new` on the keys with the given bytes.
/// Its documentation promises that a key exists before, after, or between two
/// distinct ordered keys, that `new` returns it, and that it compares strictly
/// between the given bounds; its source terminates every key it builds with 0x80.
/// Every key its source builds is a prefix of one bound, possibly with its last
/// byte moved, followed by the terminator: at most one byte longer than the
/// longer bound; where it keeps a prefix of the upper bound it then changes or ends
/// before a byte of it, so the key is never a prefix of the upper bound. The exact
/// bytes are not stated; they are named by `fractional_new`.
#[verifier::external_body]
fn call_fractional_new(lower: Option<&[u8]>, upper: Option<&[u8]>) -> (r: Option<Vec<u8>>)
    requires
        fractional_new_accepts(opt_bytes(lower), opt_bytes(upper)),
    ensures
        r is Some,
        r->0@.len() <= bound_len(opt_bytes(lower), opt_bytes(upper)) + 1,
        fractional_new(opt_bytes(lower), opt_bytes(upper)) == Some(r->0@),
        terminated(r->0@),
        lower matches Some(l) ==> lex_lt(l@, r->0@),
        upper matches Some(u) ==> lex_lt(r->0@, u@),
        upper matches Some(u) ==> !prefix_of(r->0@, u@),
{
    let lo = match lower {
        Some(b) => Some(fractional_index::FractionalIndex::from_bytes(b.to_vec()).ok()?),
        None => None,
    };
    let hi = match upper {
        Some(b) => Some(fractional_index::FractionalIndex::from_bytes(b.to_vec()).ok()?),
        None => None,
    };
    fractional_index::FractionalIndex::new(lo.as_ref(), hi.as_ref()).map(|k| k.as_bytes().to_vec())
}

/// Calls `rand::random::<u8>()`. Nothing is stated about the byte.
#[verifier::external_body]
fn random_byte() -> (r: u8) {
    rand::random::<u8>()
}

/// Length of the common prefix of `a` and `b`, capped at one less than the shorter length.
pub open spec fn shared_prefix_len(a: Seq<u8>, b: Seq<u8>, k: int) -> bool {
    let m = if a.len() < b.len() { a.len() as int } else { b.len() as int };
    &&& 0 <= k <= m - 1
    &&& forall|j: int| 0 <= j < k ==> a[j] == b[j]
    &&& (k == m - 1 || a[k] != b[k])
}

/// The key that `between` builds without jitter: the shared prefix followed by
/// the fractional key between the remaining suffixes.
pub open spec fn between_key(left: Option<Seq<u8>>, right: Option<Seq<u8>>) -> Seq<u8> {
    match (left, right) {
        (Some(l), Some(r)) => {
            let k = choose|k: int| shared_prefix_len(l, r, k);
            l.subrange(0, k) + fractional_new(
                Some(l.subrange(k, l.len() as int)),
                Some(r.subrange(k, r.len() as int)),
            ).unwrap()
        },
        _ => fractional_new(left, right).unwrap(),
    }
}

pub open spec fn opt_pos(o: Option<&GraphPosition>) -> Option<Seq<u8>> {
    match o {
        Some(p) => Some(p@),
        None => None,
    }
}

pub open spec fn opt_wf(o: Option<&GraphPosition>) -> bool {
    o matches Some(p) ==> p.wf()
}

/// `k` lies strictly between the optional bounds.
pub open spec fn strictly_between(left: Option<Seq<u8>>, k: Seq<u8>, right: Option<Seq<u8>>) -> bool {
    &&& left matches Some(l) ==> lex_lt(l, k)
    &&& right matches Some(r) ==> lex_lt(k, r)
}

proof fn lemma_prefix_lex(p: Seq<u8>, a: Seq<u8>, b: Seq<u8>)
    requires
        lex_lt(a, b),
    ensures
        lex_lt(p + a, p + b),
{
    let i = choose|i: int| lex_split(a, b, i);
    assert(lex_split(p + a, p + b, p.len() + i));
}

fn shared_prefix(a: &[u8], b: &[u8]) -> (k: usize)
    requires
        a@.len() >= 1,
        b@.len() >= 1,
    ensures
        shared_prefix_len(a@, b@, k as int),
{
    let m = if a.len() < b.len() { a.len() } else { b.len() };
    let mut k: usize = 0;
    while k + 1 < m && a[k] == b[k]
        invariant
            m == (if a@.len() < b@.len() { a@.len() } else { b@.len() }),
            m >= 1,
            k <= m - 1,
            forall|j: int| 0 <= j < k ==> a@[j] == b@[j],
        decreases m - k,
    {
        k += 1;
    }
    k
}

fn slice_to_vec(a: &[u8], start: usize, end: usize) -> (r: Vec<u8>)
    requires
        start <= end <= a@.len(),
    ensures
        r@ == a@.subrange(start as int, end as int),
{
    let mut r: Vec<u8> = Vec::new();
    let mut i = start;
    while i < end
        invariant
            start <= i <= end,
            end <= a@.len(),
            r@ == a@.subrange(start as int, i as int),
        decreases end - i,
    {
        r.push(a[i]);
        i += 1;
        assert(r@ =~= a@.subrange(start as int, i as int));
    }
    r
}

/// The fractional key strictly between two positions (without jitter).
fn between_bytes(left: Option<&GraphPosition>, right: Option<&GraphPosition>) -> (r: Vec<u8>)
    requires
        opt_wf(left),
        opt_wf(right),
        (left, right) matches (Some(l), Some(r)) ==> lex_lt(l@, r@),
    ensures
        r@ == between_key(opt_pos(left), opt_pos(right)),
        r@.len() <= bound_len(opt_pos(left), opt_pos(right)) + 1,
        terminated(r@),
        strictly_between(opt_pos(left), r@, opt_pos(right)),
        right matches Some(rr) ==> !prefix_of(r@, rr@),
{
    match (left, right) {
        (Some(l), Some(r)) => {
            let lb = l.as_bytes();
            let rb = r.as_bytes();
            let k = shared_prefix(lb, rb);
            let ls = slice_to_vec(lb, k, lb.len());
            let rs = slice_to_vec(rb, k, rb.len());
            proof {
                let i = choose|i: int| lex_split(l@, r@, i);
                if i < k {
                    assert(l@[i] == r@[i]);
                }
                assert(lex_split(ls@, rs@, i - k));
                assert(l@ =~= l@.subrange(0, k as int) + ls@);
                assert(r@ =~= l@.subrange(0, k as int) + rs@);
                assert(ls@.len() >= 1 && rs@.len() >= 1);
                assert(ls@[ls@.len() - 1] == l@[l@.len() - 1]);
                assert(rs@[rs@.len() - 1] == r@[r@.len() - 1]);
                if ls@.len() != 1 && rs@.len() != 1 {
                    assert(ls@[0] == l@[k as int]);
                    assert(rs@[0] == r@[k as int]);
                }
                assert(fractional_new_accepts(Some(ls@), Some(rs@)));
            }
            let mid = call_fractional_new(Some(ls.as_slice()), Some(rs.as_slice()));
            let mid = match mid {
                Some(m) => m,
                None => { return Vec::new(); },
            };
            let mut out = slice_to_vec(lb, 0, k);
            let mut i: usize = 0;
            while i < mid.len()
                invariant
                    i <= mid@.len(),
                    out@ == l@.subrange(0, k as int) + mid@.subrange(0, i as int),
                decreases mid@.len() - i,
            {
                out.push(mid[i]);
                i += 1;
                assert(out@ =~= l@.subrange(0, k as int) + mid@.subrange(0, i as int));
            }
            proof {
                let p = l@.subrange(0, k as int);
                assert(mid@.subrange(0, mid@.len() as int) =~= mid@);
                assert(shared_prefix_len(l@, r@, k as int));
                assert(out@ == between_key(opt_pos(left), opt_pos(right)));
                lemma_prefix_lex(p, ls@, mid@);
                lemma_prefix_lex(p, mid@, rs@);
                assert(p + ls@ =~= l@);
                assert(p + rs@ =~= r@);
                assert(out@[out@.len() - 1] == mid@[mid@.len() - 1]);
                assert(out@.len() == k + mid@.len());
                assert(out@ =~= p + mid@);
                if prefix_of(out@, r@) {
                    assert forall|j: int| 0 <= j < mid@.len() implies rs@[j] == mid@[j] by {
                        assert(r@[k + j] == out@[k + j]);
                        assert(rs@[j] == r@[k + j]);
                        assert(out@[k + j] == mid@[j]);
                    }
                    assert(rs@.subrange(0, mid@.len() as int) =~= mid@);
                }
            }
            out
        },
        _ => {
            let lo: Option<&[u8]> = match left {
                Some(l) => Some(l.as_bytes()),
                None => None,
            };
            let hi: Option<&[u8]> = match right {
                Some(r) => Some(r.as_bytes()),
                None => None,
            };
            proof {
                assert(opt_bytes(lo) == opt_pos(left));
                assert(opt_bytes(hi) == opt_pos(right));
            }
            match call_fractional_new(lo, hi) {
                Some(m) => m,
                None => Vec::new(),
            }
        },
    }
}

impl GraphPosition {
    /// Parse a position from its hexadecimal text (digits of either case).
    pub fn try_from_hex(text: &str) -> (r: Result<GraphPosition, GraphOrderError>)
        ensures
            text.spec_bytes().len() > 2 * MAX_GRAPH_POSITION_BYTES ==> r == Err::<
                GraphPosition,
                _,
            >(GraphOrderError::PositionTooLong),
            text.spec_bytes().len() <= 2 * MAX_GRAPH_POSITION_BYTES && (text.spec_bytes().len()
                == 0 || text.spec_bytes().len() % 2 != 0 || !vstd::string::is_ascii(text)
                || !all_hex_digits(text.spec_bytes())) ==> r == Err::<GraphPosition, _>(
                GraphOrderError::InvalidPosition),
            text.spec_bytes().len() <= 2 * MAX_GRAPH_POSITION_BYTES && text.spec_bytes().len()
                != 0 && text.spec_bytes().len() % 2 == 0 && vstd::string::is_ascii(text)
                && all_hex_digits(text.spec_bytes()) ==> (if valid_position(
                decode_hex(text.spec_bytes()),
            ) {
                r matches Ok(p) && p.wf() && p@ == decode_hex(text.spec_bytes())
            } else {
                r == Err::<GraphPosition, _>(GraphOrderError::InvalidPosition)
            }),
    {
        let bytes = text.as_bytes();
        let n = bytes.len();
        if n > 2 * MAX_GRAPH_POSITION_BYTES {
            return Err(GraphOrderError::PositionTooLong);
        }
        if n == 0 || n % 2 != 0 || !text.is_ascii() {
            return Err(GraphOrderError::InvalidPosition);
        }
        match decode_hex_pairs(bytes) {
            Some(v) => {
                proof {
                    assert(v@.len() == n / 2);
                }
                Self::try_from_bytes(v)
            },
            None => Err(GraphOrderError::InvalidPosition),
        }
    }

    /// The lowercase hexadecimal text of the position.
    pub fn to_hex(&self) -> (r: Vec<u8>)
        ensures
            r@.len() == 2 * self@.len(),
            all_hex_digits(r@),
            decode_hex(r@) == self@,
    {
        let mut out: Vec<u8> = Vec::new();
        let mut i: usize = 0;
        while i < self.bytes.len()
            invariant
                i <= self@.len(),
                self@ == self.bytes@,
                out@.len() == 2 * i,
                all_hex_digits(out@),
                forall|j: int| 0 <= j < i ==> #[trigger] decode_hex(out@)[j] == self@[j],
            decreases self@.len() - i,
        {
            let b = self.bytes[i];
            let hi = b / 16;
            let lo = b % 16;
            let hc = if hi < 10 { 48 + hi } else { 87 + hi };
            let lc = if lo < 10 { 48 + lo } else { 87 + lo };
            let ghost before = out@;
            out.push(hc);
            out.push(lc);
            proof {
                assert(out@ == before.push(hc).push(lc));
                assert forall|j: int| 0 <= j < out@.len() implies (#[trigger] hex_digit(out@[j])) is Some by {
                    if j < before.len() {
                        assert(out@[j] == before[j]);
                    }
                }
                assert forall|j: int| 0 <= j < i + 1 implies #[trigger] decode_hex(out@)[j] == self@[j] by {
                    if j < i {
                        assert(out@[2 * j] == before[2 * j]);
                        assert(out@[2 * j + 1] == before[2 * j + 1]);
                        assert(decode_hex(before)[j] == self@[j]);
                    } else {
                        assert(out@[2 * j] == hc);
                        assert(out@[2 * j + 1] == lc);
                    }
                }
            }
            i += 1;
        }
        proof {
            assert(decode_hex(out@) =~= self@);
        }
        out
    }

    /// A position strictly between the optional bounds. With nonzero `jitter`,
    /// that many random bytes follow the computed key before a final terminator.
    pub fn between(left: Option<&GraphPosition>, right: Option<&GraphPosition>, jitter: u8) -> (r:
        Result<GraphPosition, GraphOrderError>)
        requires
            opt_wf(left),
            opt_wf(right),
        ensures
            r matches Ok(k) ==> k.wf() && strictly_between(opt_pos(left), k@, opt_pos(right)),
            r matches Err(e) ==> (e == GraphOrderError::InvalidPosition || e
                == GraphOrderError::PositionTooLong),
            (left, right) matches (Some(l), Some(rr)) && !lex_lt(l@, rr@) ==> r == Err::<
                GraphPosition,
                _,
            >(GraphOrderError::InvalidPosition),
            jitter == 0 && !((left, right) matches (Some(l), Some(rr)) && !lex_lt(l@, rr@)) ==> (
            if between_key(opt_pos(left), opt_pos(right)).len() <= MAX_GRAPH_POSITION_BYTES {
                r matches Ok(k) && k@ == between_key(opt_pos(left), opt_pos(right))
            } else {
                r == Err::<GraphPosition, _>(GraphOrderError::PositionTooLong)
            }),
            // without jitter, room for one more byte than the longer bound is enough
            jitter == 0 && !((left, right) matches (Some(l), Some(rr)) && !lex_lt(l@, rr@)) && bound_len(opt_pos(left), opt_pos(right)) + 1
                <= MAX_GRAPH_POSITION_BYTES ==> (r matches Ok(k) && k@.len() <= bound_len(opt_pos(left), opt_pos(right)) + 1),
            // with jitter the key is the computed key, the drawn bytes and a terminator; it is
            // owed whenever it fits (the computed key is never a prefix of the right bound,
            // so no drawn byte can decide the order)
            jitter != 0 && !((left, right) matches (Some(l), Some(rr)) && !lex_lt(l@, rr@))
                && between_key(opt_pos(left), opt_pos(right)).len() + jitter + 1 <= MAX_GRAPH_POSITION_BYTES
                ==> (r matches Ok(k) && k@.len() == between_key(opt_pos(left), opt_pos(right)).len() + jitter + 1
                    && prefix_of(between_key(opt_pos(left), opt_pos(right)), k@)),
            jitter != 0 && !((left, right) matches (Some(l), Some(rr)) && !lex_lt(l@, rr@))
                && bound_len(opt_pos(left), opt_pos(right)) + jitter + 2 <= MAX_GRAPH_POSITION_BYTES ==> r is Ok,
            jitter != 0 && right is None && !(left is None) && bound_len(opt_pos(left), opt_pos(right)) + jitter + 2 <= MAX_GRAPH_POSITION_BYTES ==> r is Ok,
            jitter != 0 && left is None && right is None && jitter + 2 <= MAX_GRAPH_POSITION_BYTES ==> r is Ok,
            jitter != 0 ==> (r matches Ok(k) ==> k@.len() == between_key(opt_pos(left), opt_pos(right)).len() + jitter + 1
                && prefix_of(between_key(opt_pos(left), opt_pos(right)), k@)),
    {
        if let (Some(l), Some(rr)) = (left, right) {
            if !l.less(rr) {
                return Err(GraphOrderError::InvalidPosition);
            }
        }
        let base = between_bytes(left, right);
        let ghost b0 = base@;
        let mut bytes = base;
        if jitter != 0 {
            let mut n: u8 = 0;
            while n < jitter
                invariant
                    n <= jitter,
                    bytes@.len() == b0.len() + n,
                    bytes@.subrange(0, b0.len() as int) == b0,
                decreases jitter - n,
            {
                let ghost bb = bytes@;
                bytes.push(random_byte());
                proof { assert(bytes@.subrange(0, b0.len() as int) =~= bb.subrange(0, b0.len() as int)); }
                n += 1;
            }
            let ghost bb = bytes@;
            bytes.push(TERMINATOR);
            proof {
                assert(bytes@.subrange(0, b0.len() as int) =~= bb.subrange(0, b0.len() as int));
                assert(prefix_of(b0, bytes@));
                if let Some(l) = left {
                    lemma_extend_above(l@, b0, bytes@);
                }
                if let Some(rr) = right {
                    if !prefix_of(b0, rr@) {
                        lemma_extend_below(b0, bytes@, rr@);
                    }
                }
            }
        }
        let key = Self::try_from_bytes(bytes)?;
        if let Some(l) = left {
            if !l.less(&key) {
                return Err(GraphOrderError::InvalidPosition);
            }
        }
        if let Some(rr) = right {
            if !key.less(rr) {
                return Err(GraphOrderError::InvalidPosition);
            }
        }
        Ok(key)
    }
}


/// The positions are valid, strictly increasing, and strictly between the bounds.
pub open spec fn increasing_between(
    ps: Seq<GraphPosition>,
    left: Option<Seq<u8>>,
    right: Option<Seq<u8>>,
) -> bool {
    &&& forall|i: int| 0 <= i < ps.len() ==> (#[trigger] ps[i]).wf()
    &&& forall|i: int| 0 <= i < ps.len() ==> strictly_between(left, #[trigger] ps[i]@, right)
    &&& forall|i: int, j: int| 0 <= i < j < ps.len() ==> lex_lt(#[trigger] ps[i]@, #[trigger] ps[j]@)
}

impl GraphPosition {
    /// Append `n` increasing positions between the bounds by recursive bisection.
    fn generate(
        left: Option<&GraphPosition>,
        right: Option<&GraphPosition>,
        n: usize,
        jitter: u8,
        out: &mut Vec<GraphPosition>,
    ) -> (r: Result<(), GraphOrderError>)
        requires
            opt_wf(left),
            opt_wf(right),
        ensures
            final(out)@.subrange(0, old(out)@.len() as int) == old(out)@,
            final(out)@.len() >= old(out)@.len(),
            n == 0 ==> r is Ok && final(out)@ == old(out)@,
            // without jitter each bisection level adds at most one byte
            jitter == 0 && !((left, right) matches (Some(l), Some(rr)) && !lex_lt(l@, rr@)) && bound_len(opt_pos(left), opt_pos(right)) + n
                <= MAX_GRAPH_POSITION_BYTES ==> r is Ok && forall|i: int|
                old(out)@.len() <= i < final(out)@.len() ==> (#[trigger] final(out)@[i])@.len() <= bound_len(opt_pos(left), opt_pos(right)) + n,
            r is Ok ==> final(out)@.len() == old(out)@.len() + n && increasing_between(
                final(out)@.subrange(old(out)@.len() as int, final(out)@.len() as int),
                opt_pos(left),
                opt_pos(right),
            ),
            r matches Err(e) ==> (e == GraphOrderError::InvalidPosition || e
                == GraphOrderError::PositionTooLong),
        decreases n,
    {
        let ghost start = old(out)@.len();
        if n == 0 {
            assert(out@.subrange(start as int, out@.len() as int) =~= Seq::<GraphPosition>::empty());
            assert(out@.subrange(0, start as int) =~= out@);
            return Ok(());
        }
        let mid = Self::between(left, right, jitter)?;
        let ghost before_left = out@;
        Self::generate(left, Some(&mid), n / 2, jitter, out)?;
        let ghost after_left = out@;
        out.push(mid.duplicate());
        let ghost after_mid = out@;
        let res = Self::generate(Some(&mid), right, n - n / 2 - 1, jitter, out);
        proof {
            let fin = out@;
            assert(after_mid.subrange(0, after_left.len() as int) =~= after_left);
            assert(fin.subrange(0, after_mid.len() as int) == after_mid);
            assert(fin.subrange(0, start as int) =~= before_left) by {
                assert(after_left.subrange(0, start as int) == before_left);
                assert forall|i: int| 0 <= i < start implies fin[i] == before_left[i] by {
                    assert(fin[i] == fin.subrange(0, after_mid.len() as int)[i]);
                    assert(after_mid[i] == after_left[i]);
                    assert(after_left[i] == after_left.subrange(0, start as int)[i]);
                }
            }
            if res is Ok {
                let seg = fin.subrange(start as int, fin.len() as int);
                let a = after_left.subrange(start as int, after_left.len() as int);
                let b = fin.subrange(after_mid.len() as int, fin.len() as int);
                let m = (after_left.len() - start) as int;
                assert(m == n / 2);
                assert forall|i: int| 0 <= i < m implies seg[i] == a[i] by {
                    assert(fin[start + i] == after_mid[start + i]);
                }
                assert(seg[m] == after_mid[after_left.len() as int]);
                assert forall|i: int| 0 <= i < b.len() implies seg[m + 1 + i] == b[i] by {}
                assert forall|i: int| 0 <= i < seg.len() implies (#[trigger] seg[i]).wf() && strictly_between(opt_pos(left), seg[i]@, opt_pos(right)) by {
                    if i < m {
                        assert(seg[i] == a[i]);
                        if let Some(r) = right {
                            lemma_lex_transitive(a[i]@, mid@, r@);
                        }
                    } else if i == m {
                    } else {
                        assert(seg[i] == b[i - m - 1]);
                        if let Some(l) = left {
                            lemma_lex_transitive(l@, mid@, b[i - m - 1]@);
                        }
                    }
                }
                assert forall|i: int, j: int| 0 <= i < j < seg.len() implies lex_lt(#[trigger] seg[i]@, #[trigger] seg[j]@) by {
                    if j < m {
                        assert(seg[i] == a[i] && seg[j] == a[j]);
                    } else if j == m {
                        assert(seg[i] == a[i]);
                    } else if i > m {
                        assert(seg[i] == b[i - m - 1] && seg[j] == b[j - m - 1]);
                    } else if i == m {
                        assert(seg[j] == b[j - m - 1]);
                    } else {
                        assert(seg[i] == a[i] && seg[j] == b[j - m - 1]);
                        lemma_lex_transitive(a[i]@, mid@, b[j - m - 1]@);
                    }
                }
            }
            let bl = bound_len(opt_pos(left), opt_pos(right));
            if jitter == 0 && !((left, right) matches (Some(l), Some(rr)) && !lex_lt(l@, rr@)) && bl + n <= MAX_GRAPH_POSITION_BYTES {
                assert(mid@.len() <= bl + 1);
                assert(bound_len(Some(mid@), opt_pos(right)) <= bl + 1);
                assert(res is Ok);
                assert forall|i: int| start <= i < fin.len() implies (#[trigger] fin[i])@.len() <= bl + n by {
                    if i < after_left.len() {
                        assert(fin[i] == after_mid[i]);
                        assert(after_mid[i] == after_left[i]);
                    } else if i == after_left.len() {
                        assert(fin[i] == after_mid[i]);
                    }
                }
            }
        }
        res
    }

    /// `n` strictly increasing positions between the bounds.
    pub fn evenly(left: Option<&GraphPosition>, right: Option<&GraphPosition>, n: usize, jitter: u8) -> (r:
        Result<Vec<GraphPosition>, GraphOrderError>)
        requires
            opt_wf(left),
            opt_wf(right),
        ensures
            n == 0 ==> r is Ok,
            jitter == 0 && !((left, right) matches (Some(l), Some(rr)) && !lex_lt(l@, rr@)) && bound_len(opt_pos(left), opt_pos(right)) + n
                <= MAX_GRAPH_POSITION_BYTES ==> (r matches Ok(v) && forall|i: int|
                0 <= i < v@.len() ==> (#[trigger] v@[i])@.len() <= bound_len(opt_pos(left), opt_pos(right)) + n),
            r matches Ok(v) ==> v@.len() == n && increasing_between(v@, opt_pos(left), opt_pos(right)),
            r matches Err(e) ==> (e == GraphOrderError::InvalidPosition || e
                == GraphOrderError::PositionTooLong),
    {
        let mut out: Vec<GraphPosition> = Vec::new();
        let r = Self::generate(left, right, n, jitter, &mut out);
        match r {
            Ok(()) => {
                assert(out@.subrange(0, out@.len() as int) =~= out@);
                Ok(out)
            },
            Err(e) => Err(e),
        }
    }
}

} // verus!
