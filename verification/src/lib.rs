//! A native directed multigraph CRDT with stable identities, remove-wins
//! lifecycles, fractional outgoing-edge order, and opt-in cycle analysis.
pub mod ids;
pub mod idmap;
pub mod position;
pub mod life;
pub mod op;
pub mod order_index;
pub mod register;
pub mod state;
pub mod laws;
pub mod analysis;
pub mod handler;
pub mod fuzz;
pub mod model;
pub mod driver;
pub mod copy_order;
pub mod local_diff;
pub mod records;
pub mod oplog;
pub mod diff_calc;
