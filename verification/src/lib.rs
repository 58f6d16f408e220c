//! A node runtime for a Maelstrom-style message-passing workload suite:
//! typed node/client identifiers, an envelope codec over a line-oriented
//! JSON wire format, a topology engine that picks broadcast next-hops from
//! a cycle cover of the overlay, and the per-workload handler state machines
//! (echo, unique ids, broadcast gossip, grow-only counter, per-key logs).

pub mod codec;
pub mod counter;
pub mod ids;
pub mod kafka;
pub mod node;
pub mod protocol;
pub mod topology;
