//! Slots, replica identifiers and leader election.

use crate::bytes::{le_u64_value, push_u64_le, read_u64_le, u64_le_bytes};
use crate::hashing::{sha256, sha256_digest};
use vstd::prelude::*;

verus! {

/// Replicas are numbered `0..n`.
pub type ReplicaId = usize;

/// A consensus slot; slot 0 holds the genesis block.
#[derive(Debug, Clone, Copy, PartialEq, Eq, Hash, Structural)]
pub struct Slot(pub u64);

impl Slot {
    pub fn new(v: u64) -> (s: Self)
        ensures
            s.0 == v,
    {
        Slot(v)
    }

    /// The slot after this one.
    pub fn next(&self) -> (s: Self)
        requires
            self.0 < u64::MAX,
        ensures
            s.0 == self.0 + 1,
    {
        Slot(self.0 + 1)
    }
}

/// The domain tag hashed before the slot number: the ASCII bytes of `KUDZU_LEADER`.
pub open spec fn leader_tag() -> Seq<u8> {
    seq![75u8, 85, 68, 90, 85, 95, 76, 69, 65, 68, 69, 82]
}

/// What leader election hashes for a slot: the tag, then the slot number in little-endian.
pub open spec fn leader_preimage(slot: Slot) -> Seq<u8> {
    leader_tag() + u64_le_bytes(slot.0)
}

/// The leader of `slot` among `n` replicas: the first eight bytes of the
/// digest, read as a little-endian number, modulo `n`.
pub open spec fn spec_leader_for_slot(slot: Slot, n: usize) -> int {
    ((le_u64_value(sha256_digest(leader_preimage(slot))) as u64) as usize) as int % (n as int)
}

/// Elects the leader of a slot by hashing the slot number.
pub fn leader_for_slot(slot: Slot, n: usize) -> (leader: ReplicaId)
    requires
        n > 0,
    ensures
        leader == spec_leader_for_slot(slot, n),
        leader < n,
{
    let mut buf: Vec<u8> = Vec::new();
    buf.push(75u8);
    buf.push(85u8);
    buf.push(68u8);
    buf.push(90u8);
    buf.push(85u8);
    buf.push(95u8);
    buf.push(76u8);
    buf.push(69u8);
    buf.push(65u8);
    buf.push(68u8);
    buf.push(69u8);
    buf.push(82u8);
    assert(buf@ =~= leader_tag());
    push_u64_le(&mut buf, slot.0);
    let digest = sha256(buf.as_slice());
    let val = read_u64_le(&digest);
    (val as usize) % n
}

} // verus!
