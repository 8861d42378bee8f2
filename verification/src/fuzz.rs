//! Bounded differential runs: a byte-driven input format, and three replicas of
//! the graph engine checked against an independent operation-set oracle.
use vstd::prelude::*;
use crate::driver::{Run, RunFailure, run_seed_to_end, pending_snapshot_run, run_passed};

verus! {

/// Maximum randomized steps per input, besides the fixed bootstrap and the final
/// convergence checks.
pub const MAX_STEPS: usize = 120;

/// Only this many input bytes are read; shorter inputs are padded with zeros.
pub const INPUT_LEN: usize = 10;

/// What a byte input asks for.
#[derive(Clone, Copy, Debug, PartialEq, Eq, Structural)]
pub enum GraphInput {
    Random { seed: u64, steps: usize },
    /// The fixed historical-fork / pending-chunk / snapshot-merge schedule.
    PendingSnapshot61516,
}

/// The `i`-th input byte after zero padding.
pub open spec fn padded(bytes: Seq<u8>, i: int) -> u8 {
    if 0 <= i < bytes.len() { bytes[i] } else { 0u8 }
}

/// A little-endian number.
pub open spec fn le_value(s: Seq<u8>) -> nat
    decreases s.len(),
{
    if s.len() == 0 { 0 } else { s[0] as nat + 256 * le_value(s.drop_first()) }
}

/// `256` to the power `n`.
pub open spec fn base256(n: nat) -> nat
    decreases n,
{
    if n == 0 { 1 } else { 256 * base256((n - 1) as nat) }
}

/// The first eight padded bytes.
pub open spec fn seed_bytes(bytes: Seq<u8>) -> Seq<u8> {
    Seq::new(8, |i: int| padded(bytes, i))
}

/// The input that `bytes` describe: bit 0 of byte 9 selects the saved schedule;
/// otherwise bytes 0..8 are the little-endian seed and byte 8 the step budget,
/// clamped to `MAX_STEPS`.
pub open spec fn input_of(bytes: Seq<u8>) -> GraphInput {
    if padded(bytes, 9) % 2 == 1 {
        GraphInput::PendingSnapshot61516
    } else {
        GraphInput::Random {
            seed: le_value(seed_bytes(bytes)) as u64,
            steps: if padded(bytes, 8) < MAX_STEPS { padded(bytes, 8) as usize } else { MAX_STEPS },
        }
    }
}

proof fn lemma_le_bound(s: Seq<u8>)
    ensures
        le_value(s) < base256(s.len()),
    decreases s.len(),
{
    if s.len() > 0 {
        lemma_le_bound(s.drop_first());
        let a = s[0] as int;
        let b = le_value(s.drop_first()) as int;
        let c = base256((s.len() - 1) as nat) as int;
        assert(a + 256 * b < 256 * c) by (nonlinear_arith)
            requires
                0 <= a < 256,
                0 <= b < c,
        ;
    }
}

proof fn lemma_base_mono(m: nat, n: nat)
    requires
        m <= n,
    ensures
        base256(m) <= base256(n),
    decreases n,
{
    if m < n {
        lemma_base_mono(m, (n - 1) as nat);
    }
}

impl GraphInput {
    /// Read an input from bytes: missing bytes are zero, bytes past the tenth
    /// have no effect.
    pub fn from_bytes(bytes: &[u8]) -> (r: GraphInput)
        ensures
            r == input_of(bytes@),
    {
        let mut input: [u8; 10] = [0u8; 10];
        let mut i: usize = 0;
        while i < INPUT_LEN
            invariant
                i <= INPUT_LEN,
                forall|k: int| 0 <= k < i ==> input@[k] == padded(bytes@, k),
            decreases INPUT_LEN - i,
        {
            if i < bytes.len() {
                input.set(i, bytes[i]);
            } else {
                input.set(i, 0);
            }
            i += 1;
        }
        let flag = input[9];
        if flag & 1 != 0 {
            assert(flag & 1 != 0 ==> flag % 2 == 1) by (bit_vector);
            return GraphInput::PendingSnapshot61516;
        }
        assert(flag & 1 == 0 ==> flag % 2 == 0) by (bit_vector);
        let ghost s = seed_bytes(bytes@);
        let mut seed: u64 = 0;
        let mut k: usize = 8;
        proof {
            assert(s.subrange(8, 8) =~= Seq::<u8>::empty());
            reveal_with_fuel(base256, 9);
            assert(base256(8) == 0x1_0000_0000_0000_0000);
        }
        while k > 0
            invariant
                k <= 8,
                forall|j: int| 0 <= j < 10 ==> input@[j] == padded(bytes@, j),
                s == seed_bytes(bytes@),
                seed == le_value(s.subrange(k as int, 8)),
                base256(8) == 0x1_0000_0000_0000_0000,
            decreases k,
        {
            proof {
                lemma_le_bound(s.subrange(k - 1, 8));
                lemma_base_mono((9 - k) as nat, 8);
                assert(s.subrange(k - 1, 8).drop_first() =~= s.subrange(k as int, 8));
                assert(s.subrange(k - 1, 8)[0] == input@[k - 1]);
            }
            seed = input[k - 1] as u64 + 256 * seed;
            k -= 1;
        }
        proof {
            assert(s.subrange(0, 8) =~= s);
        }
        let budget = input[8] as usize;
        let steps = if budget < MAX_STEPS { budget } else { MAX_STEPS };
        GraphInput::Random { seed, steps }
    }
}

impl GraphInput {
    /// Run the input to its end, handing back the finished run: the random run it
    /// names, its steps clamped to `MAX_STEPS`, or the saved schedule. On success
    /// every replica holds exactly the model's records at its version.
    pub fn run_to_end(self) -> (r: Result<Run, RunFailure>)
        ensures
            r matches Ok(run) ==> run.wf() && forall|k: int| 0 <= k < 3 ==> #[trigger] run.replica_ok(k),
            self matches GraphInput::Random { seed, steps } ==> (r matches Err(f) ==> f.seed == seed && f.step <= steps && f.step <= MAX_STEPS),
            self is PendingSnapshot61516 ==> (r matches Err(f) ==> f.seed == 61516),
    {
        match self {
            GraphInput::Random { seed, steps } => run_seed_to_end(seed, if steps < MAX_STEPS { steps } else { MAX_STEPS }),
            GraphInput::PendingSnapshot61516 => pending_snapshot_run(),
        }
    }

    /// Run the input: the outcome of `run_to_end`, with the finished run as a ghost
    /// result. Success means that every replica of that run matched the model.
    pub fn run(self) -> (r: (Result<(), RunFailure>, Ghost<Run>))
        ensures
            r.0 is Ok ==> run_passed(r.1@),
            self matches GraphInput::Random { seed, steps } ==> (r.0 matches Err(f) ==> f.seed == seed && f.step <= steps && f.step <= MAX_STEPS),
            self is PendingSnapshot61516 ==> (r.0 matches Err(f) ==> f.seed == 61516),
    {
        match self.run_to_end() {
            Ok(run) => (Ok(()), Ghost(run)),
            Err(f) => (Err(f), Ghost(arbitrary())),
        }
    }
}

/// Run the input that `bytes` describe, with the finished run as a ghost result:
/// success means that every replica of that run matched the model.
pub fn fuzz_graph(bytes: &[u8]) -> (r: (Result<(), RunFailure>, Ghost<Run>))
    ensures
        r.0 is Ok ==> run_passed(r.1@),
        input_of(bytes@) matches GraphInput::Random { seed, steps } ==> (r.0 matches Err(f) ==> f.seed == seed && f.step <= steps),
        input_of(bytes@) is PendingSnapshot61516 ==> (r.0 matches Err(f) ==> f.seed == 61516),
{
    GraphInput::from_bytes(bytes).run()
}

} // verus!
