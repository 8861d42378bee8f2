use loro_graph::model::{Action, NodeId, Object, Oracle};

const G: u8 = 0;

fn node(oracle: &mut Oracle, at: &mut Vec<bool>, graph: u8) -> NodeId {
    NodeId {
        graph,
        birth: oracle.append_to(at, Action::CreateNode(graph)),
    }
}

fn union(a: &mut Vec<bool>, b: &[bool]) {
    if a.len() < b.len() {
        a.resize(b.len(), false);
    }
    for (i, x) in b.iter().enumerate() {
        a[i] |= *x;
    }
}

fn alive(oracle: &Oracle, at: &Vec<bool>, n: NodeId) -> bool {
    oracle.snapshot(G, at).node_alive(n).unwrap()
}

#[test]
fn oracle_partial_restore_does_not_cover_an_unobserved_delete() {
    let mut oracle = Oracle::new();
    let mut a = Vec::new();
    let n = node(&mut oracle, &mut a, G);
    let created = a.clone();
    let mut b = a.clone();
    oracle.append_to(&mut a, Action::Delete(Object::Node(n)));
    oracle.append_to(&mut b, Action::Delete(Object::Node(n)));
    let deleted = a.clone();
    oracle.append_to(&mut a, Action::Restore(Object::Node(n)));
    let partial_restore = a.clone();
    assert!(alive(&oracle, &a, n));

    union(&mut a, &b);
    let both = a.clone();
    assert!(!alive(&oracle, &both, n));
    // Extra property writes cannot make the lower-numbered concurrent Delete
    // disappear from the set of maximal lifecycle events.
    for index in 0..5 {
        oracle.append_to(
            &mut a,
            Action::Write {
                object: Object::Node(n),
                key: 0,
                value: index,
            },
        );
    }
    assert!(!alive(&oracle, &a, n));
    oracle.append_to(&mut a, Action::Restore(Object::Node(n)));
    assert!(alive(&oracle, &a, n));

    // The model reevaluates the requested boundary, not its latest state.
    assert!(alive(&oracle, &created, n));
    assert!(!alive(&oracle, &deleted, n));
    assert!(alive(&oracle, &partial_restore, n));
    assert!(!alive(&oracle, &both, n));
}

#[test]
fn oracle_later_event_number_is_not_happens_before() {
    let mut oracle = Oracle::new();
    let mut a = Vec::new();
    let n = node(&mut oracle, &mut a, G);
    oracle.append_to(&mut a, Action::Delete(Object::Node(n)));
    let mut b = a.clone();
    let mut c = a.clone();
    oracle.append_to(&mut b, Action::Delete(Object::Node(n)));
    oracle.append_to(&mut c, Action::Restore(Object::Node(n)));
    let restored = c.clone();
    union(&mut c, &b);
    assert!(!alive(&oracle, &c, n));
    assert!(alive(&oracle, &restored, n));
}
