# loro_graph

A directed property multigraph CRDT with stable identities, remove-wins
lifecycles, fractional ordering of outgoing edges and opt-in cycle analysis,
written in Verus: the library's behaviour is stated in `requires`/`ensures`
contracts and proved, with these exceptions, which the tests exercise instead:
that the randomized multi-replica runs succeed (a run that does succeed is
proved to end with every replica matching the model), that copied edges keep
their relative order after key planning, that replaying a state's full diff
rebuilds it, that a reachable state's snapshot records are valid, that applying
a diff succeeds whenever its rebased plan fits the identities and clocks left,
and that evenly spaced keys with jitter are allocated beyond the cases their
contracts name.

Cycle analysis finds each strongly connected component as the nodes that both
reach and are reached from its smallest unassigned node (one forward and one
backward search per component), so its components are proved to be exactly the
strongly connected ones.

Nodes and edges are named by the operation that created them. Deleting adds a
delete tag; a restore lifts only the tags it observed, so an unobserved
concurrent delete still wins. An edge is visible while it and both endpoints are
alive. Each edge carries a last-writer-wins order register whose winning key
places it among its source's outgoing edges.

## Layout

- `src/ids.rs`, `src/idmap.rs`: identities and identity-keyed maps.
- `src/position.rs`: fractional order keys (`fractional_index` behind trusted wrappers).
- `src/life.rs`, `src/register.rs`: lifecycles and order registers.
- `src/op.rs`: operations, changes, records and diffs.
- `src/state.rs`, `src/order_index.rs`: the graph state, change application and
  validation, history diffs, records, adjacency and per-source order.
- `src/laws.rs`: laws of the state (retraction, commutation, remove-wins, last-writer-wins).
- `src/records.rs`: snapshots as record lists, and rebuilding a state from them.
- `src/local_diff.rs`, `src/copy_order.rs`: rebasing a history diff into fresh local
  operations, and keeping copied edges in order.
- `src/handler.rs`: the local editing API (creation, lifecycle, queries,
  traversal, conditional deletion, repair, attach, applying diffs).
- `src/analysis.rs`: cycle analysis and repair planning on snapshots.
- `src/oplog.rs`: validating imported graph operations against the causal DAG.
- `src/diff_calc.rs`: the diff between two versions of recorded history.
- `src/model.rs`, `src/driver.rs`, `src/fuzz.rs`: a reference model and the
  randomized multi-replica runs checked against it.
- `app/`: serialization of operations and snapshots (serde, postcard).
- `tests/`: executable tests.
