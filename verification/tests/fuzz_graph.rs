use loro_graph::fuzz::{fuzz_graph, GraphInput, INPUT_LEN, MAX_STEPS};
use loro_graph::driver::{run_seed, run_seed_to_end, pending_snapshot_run};

#[test]
fn graph_byte_contract_is_stable_and_bounded() {
    assert_eq!(
        GraphInput::from_bytes(&[]),
        GraphInput::Random { seed: 0, steps: 0 }
    );
    assert_eq!(
        GraphInput::from_bytes(&[0x4c, 0xf0]),
        GraphInput::Random {
            seed: 61516,
            steps: 0
        }
    );
    let mut input = [0xff; INPUT_LEN];
    input[9] = 0;
    assert_eq!(
        GraphInput::from_bytes(&input),
        GraphInput::Random {
            seed: u64::MAX,
            steps: MAX_STEPS
        }
    );
    let mut longer = input.to_vec();
    longer.extend([0x4c, 0xf0, 1]);
    assert_eq!(
        GraphInput::from_bytes(&longer),
        GraphInput::from_bytes(&input)
    );
    for budget in 0..=255 {
        input[8] = budget;
        assert_eq!(
            GraphInput::from_bytes(&input),
            GraphInput::Random {
                seed: u64::MAX,
                steps: usize::from(budget).min(MAX_STEPS)
            }
        );
    }
    input[9] = 1;
    assert_eq!(
        GraphInput::from_bytes(&input),
        GraphInput::PendingSnapshot61516
    );
}

#[test]
fn graph_saved_pending_snapshot_61516() {
    let mut input = [0u8; INPUT_LEN];
    input[..8].copy_from_slice(&61516u64.to_le_bytes());
    input[9] = 1;
    assert_eq!(input.len(), INPUT_LEN);
    assert_eq!(u64::from_le_bytes(input[..8].try_into().unwrap()), 61516);
    assert_eq!(
        GraphInput::from_bytes(&input),
        GraphInput::PendingSnapshot61516
    );
    assert_eq!(fuzz_graph(&input).0, Ok(()));
}

fn corpus(seed: u64, budget: u8) -> [u8; INPUT_LEN] {
    let mut input = [0u8; INPUT_LEN];
    input[..8].copy_from_slice(&seed.to_le_bytes());
    input[8] = budget;
    input
}

#[test]
fn graph_fixed_random_corpus_uses_native_model() {
    for (input, expected) in [
        (corpus(1, 32), GraphInput::Random { seed: 1, steps: 32 }),
        (
            corpus(42, 120),
            GraphInput::Random {
                seed: 42,
                steps: 120,
            },
        ),
    ] {
        assert_eq!(GraphInput::from_bytes(&input), expected);
        assert_eq!(fuzz_graph(&input).0, Ok(()));
    }
    // An empty byte slice still runs the shared topology, reverse pending imports
    // and final snapshots.
    assert_eq!(fuzz_graph(&[]).0, Ok(()));
}

#[test]
fn graph_seed_runner_is_available_without_libfuzzer() {
    assert_eq!(run_seed(7, 8).0, Ok(()));
}

#[test]
fn finished_runs_hand_back_replicas_that_match_the_model() {
    let run = run_seed_to_end(7, 8).expect("seeded run");
    assert!(run.check_all());
    let run = pending_snapshot_run().expect("saved schedule");
    assert!(run.check_all());
    let run = GraphInput::Random { seed: 0, steps: 0 }.run_to_end().expect("empty input");
    assert!(run.check_all());
}
