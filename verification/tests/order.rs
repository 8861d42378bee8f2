use loro_graph::position::{GraphOrderError, GraphPosition, MAX_GRAPH_POSITION_BYTES};
use rand::{Rng, SeedableRng};

#[test]
fn canonical_keys_are_dense_even_at_adversarial_prefixes() {
    let mut keys = vec![GraphPosition::default_position()];
    for length in 1..=4 {
        for mut digits in 0..5usize.pow(length) {
            let mut bytes = Vec::new();
            for _ in 0..length {
                bytes.push([0, 127, 128, 129, 255][digits % 5]);
                digits /= 5;
            }
            bytes.push(128);
            keys.push(GraphPosition::try_from_bytes(bytes).unwrap());
        }
    }
    keys.sort();
    for adjacent in keys.windows(2) {
        for jitter in [0, 1, 8, 255] {
            let key =
                GraphPosition::between(Some(&adjacent[0]), Some(&adjacent[1]), jitter).unwrap();
            assert!(adjacent[0] < key && key < adjacent[1]);
            assert_eq!(key.as_bytes().last(), Some(&128));
        }
    }
    let mut rng = rand::rngs::StdRng::seed_from_u64(0x10_20_30);
    for _ in 0..1000 {
        let a = rng.gen_range(0..keys.len() - 1);
        let b = rng.gen_range(a + 1..keys.len());
        let allocated = GraphPosition::evenly(Some(&keys[a]), Some(&keys[b]), 17, 4).unwrap();
        assert!(keys[a] < allocated[0] && allocated[16] < keys[b]);
        assert!(allocated.windows(2).all(|pair| pair[0] < pair[1]));
    }
}

// Text keys are parsed by `try_from_hex` and binary keys by `try_from_bytes`:
// these are what the serialized forms of a key decode through.
#[test]
fn malformed_and_oversized_keys_fail_before_algorithm_entry() {
    for text in ["", "8", "00", "zz", "808", "é80", "８０"] {
        assert!(GraphPosition::try_from_hex(text).is_err());
    }
    let max = vec![128; MAX_GRAPH_POSITION_BYTES];
    let valid = GraphPosition::try_from_bytes(max.clone()).unwrap();
    let text = String::from_utf8(valid.to_hex()).unwrap();
    assert_eq!(GraphPosition::try_from_hex(&text).unwrap(), valid);
    assert_eq!(
        GraphPosition::try_from_bytes(valid.as_bytes().to_vec()).unwrap(),
        valid
    );
    assert!(matches!(
        GraphPosition::try_from_bytes(vec![128; MAX_GRAPH_POSITION_BYTES + 1]),
        Err(GraphOrderError::PositionTooLong)
    ));
    let lower = GraphPosition::try_from_bytes(
        [vec![255; MAX_GRAPH_POSITION_BYTES - 1], vec![128]].concat(),
    )
    .unwrap();
    assert!(matches!(
        GraphPosition::between(Some(&lower), None, 0),
        Err(GraphOrderError::PositionTooLong)
    ));
}
