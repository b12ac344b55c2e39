# Kudzu BFT, verified

Kudzu is a simple, high-throughput BFT consensus protocol. This crate holds
its logic as a Verus-verified library, and a thin program around it.

- `src/` — the library, verified by Verus:
  - `types.rs`, `block.rs`, `bytes.rs`, `hashing.rs`: slots, leader election,
    blocks and their SHA-256 hashes.
  - `crypto.rs`: Reed-Solomon erasure coding of payloads into fragments and
    Merkle commitments to them (through `reed-solomon-erasure` and `rs_merkle`).
  - `voting.rs`: votes, vote trackers, the fragment store, the block map and
    the certificate pool.
  - `protocol.rs`: the replica state machine, each handler specified as a
    function from state and input to state and actions.
  - `net.rs`: dispatching a received message to the replica.
  - `metrics.rs`: counters and slot timings.
  - `report.rs`: reading the nodes' reports of finalized blocks and checking
    that they agree.
  - `laws.rs`: properties that span several operations (quorum intersection,
    one first vote per slot, agreement between replicas, ...).
- `tests/` — tests run against the compiled library.
- `app/` — the program: `kudzu [node flags]` runs one replica over UDP,
  `kudzu sim [sim flags]` runs a local network of nodes and checks the result.

The protocol needs `n >= 3f + 2p + 1`; quorums are `n - f - p` (standard),
`n - p` (fast) and `f + p + 1` fragments rebuild a payload.
