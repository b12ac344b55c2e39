//! Kudzu: a simple, high-throughput BFT consensus protocol.
//!
//! The library holds the protocol's logic: slots and leader election,
//! blocks and their hashes, erasure coding with Merkle commitments, the
//! vote trackers and certificate pool, the replica state machine that
//! turns incoming messages into actions, and the check that the blocks
//! the nodes report finalized agree.

pub mod block;
pub mod bytes;
pub mod crypto;
pub mod hashing;
pub mod laws;
pub mod metrics;
pub mod net;
pub mod protocol;
pub mod report;
pub mod types;
pub mod voting;

pub use types::{ReplicaId, Slot};
