use loro_graph::driver::{pending_snapshot_61516, Run};
use loro_graph::model::{Action, Object};

const G: u8 = 0;

#[test]
fn native_partial_restore_keeps_the_unobserved_delete() {
    for on_edge in [false, true] {
        let mut run = Run::new(0xDE1E_7E + u64::from(on_edge));
        let x = run.node(0, G).unwrap();
        let y = run.node(0, G).unwrap();
        let edge = run.edge(0, y, x).unwrap();
        let object = if on_edge {
            Object::Edge(edge)
        } else {
            Object::Node(x)
        };
        run.send_all(0, 1).unwrap();
        run.send_all(0, 2).unwrap();
        let before_delete = run.save_cut(0);
        let delete_a = run.act(0, Action::Delete(object)).unwrap();
        let delete_b = run.act(1, Action::Delete(object)).unwrap();
        let partial_restore = run.act(0, Action::Restore(object)).unwrap();
        let partial_cut = run.save_cut(0);
        assert_eq!(run.state(0, G).node_alive(x), Some(true));
        // Restore arrives before its own dependency. The other Delete may be
        // applied in the meantime; packet IDs are duplicated deliberately.
        run.deliver(
            2,
            &vec![partial_restore, delete_b, partial_restore, delete_a],
            false,
        )
        .unwrap();
        run.deliver(0, &vec![delete_b], false).unwrap();
        run.deliver(1, &vec![partial_restore, delete_a, delete_a], true)
            .unwrap();
        for replica in 0..3 {
            let state = run.state(replica, G);
            assert_eq!(state.node_alive(x), Some(on_edge));
            assert_eq!(state.edge_alive(edge), Some(!on_edge));
            assert_eq!(state.edge_visible(edge), Some(false));
        }
        run.checkout_roundtrip(0, partial_cut).unwrap();
        run.act(0, Action::Restore(object)).unwrap();
        run.converge().unwrap();
        assert_eq!(run.state(2, G).edge_visible(edge), Some(true));
        run.checkout_roundtrip(2, before_delete).unwrap();
    }
}

#[test]
fn native_historical_fork_pending_chunks_and_snapshot_merge() {
    assert_eq!(pending_snapshot_61516().0, Ok(()));
}
