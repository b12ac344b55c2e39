//! Blocks, block hashes, and the special timeout and genesis blocks.

use crate::bytes::{push_u64_le, push_usize_le, u64_le_bytes, usize_le_bytes};
use crate::hashing::{sha256, sha256_digest};
use crate::types::Slot;
use vstd::prelude::*;

verus! {

broadcast use vstd::array::group_array_axioms;

/// The SHA-256 hash of a block.
#[derive(Clone, Copy, Debug, PartialEq, Eq, Hash)]
pub struct BlockHash(pub [u8; 32]);

/// Thirty-two zero bytes.
pub open spec fn zero32() -> [u8; 32] {
    vstd::array::spec_array_fill_for_copy_type::<u8, 32>(0u8)
}

/// Whether all 32 bytes are zero.
pub open spec fn all_zero(a: [u8; 32]) -> bool {
    forall|i: int| 0 <= i < 32 ==> a[i] == 0u8
}

impl View for BlockHash {
    type V = Seq<u8>;

    open spec fn view(&self) -> Seq<u8> {
        self.0@
    }
}

impl BlockHash {
    /// The hash of all zero bytes, used as the parent of genesis and timeout blocks.
    pub fn zero() -> (h: Self)
        ensures
            h.0 == zero32(),
            all_zero(h.0),
    {
        BlockHash([0u8; 32])
    }

    pub fn from_bytes(b: [u8; 32]) -> (h: Self)
        ensures
            h.0 == b,
    {
        BlockHash(b)
    }

    /// Byte-wise equality.
    pub fn same(&self, other: &BlockHash) -> (eq: bool)
        ensures
            eq == (*self == *other),
    {
        let mut i: usize = 0;
        while i < 32
            invariant
                0 <= i <= 32,
                forall|j: int| 0 <= j < i ==> self.0[j] == other.0[j],
            decreases 32 - i,
        {
            if self.0[i] != other.0[i] {
                return false;
            }
            i = i + 1;
        }
        assert(self.0 =~= other.0);
        true
    }

    /// Whether the hash is all zero bytes.
    pub fn is_zero(&self) -> (z: bool)
        ensures
            z == all_zero(self.0),
    {
        let mut i: usize = 0;
        while i < 32
            invariant
                0 <= i <= 32,
                forall|j: int| 0 <= j < i ==> self.0[j] == 0u8,
            decreases 32 - i,
        {
            if self.0[i] != 0u8 {
                return false;
            }
            i = i + 1;
        }
        true
    }
}

/// The lowercase hexadecimal digit for `d < 16`.
pub open spec fn hex_digit(d: u8) -> char {
    if d < 10 {
        (48 + d) as char
    } else {
        (87 + d) as char
    }
}

/// The lowercase hexadecimal encoding of `b`: two digits per byte, high digit first.
pub open spec fn hex_lower(b: Seq<u8>) -> Seq<char>
    decreases b.len(),
{
    if b.len() == 0 {
        Seq::empty()
    } else {
        hex_lower(b.drop_last()) + seq![hex_digit(b.last() / 16), hex_digit(b.last() % 16)]
    }
}

/// Calls `hex::encode`. The contract claims what the crate documents: the
/// bytes in lowercase hexadecimal, two digits per byte.
#[verifier::external_body]
fn hex_encode(data: &[u8]) -> (s: String)
    ensures
        s@ == hex_lower(data@),
{
    hex::encode(data)
}

impl BlockHash {
    /// The first eight bytes in lowercase hexadecimal, as the hash is displayed.
    pub fn to_string(&self) -> (s: String)
        ensures
            s@ == hex_lower(self.0@.take(8)),
    {
        let mut prefix: Vec<u8> = Vec::new();
        let mut i: usize = 0;
        while i < 8
            invariant
                0 <= i <= 8,
                prefix@ == self.0@.take(i as int),
            decreases 8 - i,
        {
            prefix.push(self.0[i]);
            assert(self.0@.take(i + 1) =~= self.0@.take(i as int).push(self.0[i as int]));
            i = i + 1;
        }
        hex_encode(prefix.as_slice())
    }
}

/// The tag of erasure-coded block data: the payload's length and the Merkle root of its fragments.
#[derive(Clone, Copy, Debug)]
pub struct Tag {
    pub len: usize,
    pub root: [u8; 32],
}

#[derive(Clone, Copy, Debug)]
pub struct Block {
    pub slot: Slot,
    pub tag: Tag,
    pub parent_hash: BlockHash,
}

/// The bytes that a block's hash covers: slot (eight little-endian bytes),
/// payload length (little-endian, in the width of a `usize`), Merkle root,
/// parent hash.
pub open spec fn block_preimage(b: Block) -> Seq<u8> {
    u64_le_bytes(b.slot.0) + usize_le_bytes(b.tag.len) + b.tag.root@ + b.parent_hash.0@
}

/// The hash of a block.
pub open spec fn block_hash_of(b: Block) -> BlockHash {
    choose|h: BlockHash| h.0@ == sha256_digest(block_preimage(b))
}

/// Whether a block is the special block voted for when a slot times out.
pub open spec fn spec_is_timeout(b: Block) -> bool {
    b.tag.len == 0 && all_zero(b.tag.root) && all_zero(b.parent_hash.0)
}

/// The timeout block of `slot`.
pub open spec fn spec_timeout_block(slot: Slot) -> Block {
    Block { slot, tag: Tag { len: 0, root: zero32() }, parent_hash: BlockHash(zero32()) }
}

impl Block {
    pub fn new(slot: Slot, tag: Tag, parent: BlockHash) -> (b: Self)
        ensures
            b == (Block { slot, tag, parent_hash: parent }),
    {
        Block { slot, tag, parent_hash: parent }
    }

    pub fn hash(&self) -> (h: BlockHash)
        ensures
            h == block_hash_of(*self),
            h.0@ == sha256_digest(block_preimage(*self)),
    {
        let mut buf: Vec<u8> = Vec::new();
        push_u64_le(&mut buf, self.slot.0);
        push_usize_le(&mut buf, self.tag.len);
        let mut i: usize = 0;
        while i < 32
            invariant
                0 <= i <= 32,
                buf@ == u64_le_bytes(self.slot.0) + usize_le_bytes(self.tag.len)
                    + self.tag.root@.take(i as int),
            decreases 32 - i,
        {
            buf.push(self.tag.root[i]);
            assert(self.tag.root@.take(i + 1) =~= self.tag.root@.take(i as int).push(self.tag.root[i as int]));
            i = i + 1;
        }
        assert(self.tag.root@.take(32) =~= self.tag.root@);
        let mut j: usize = 0;
        while j < 32
            invariant
                0 <= j <= 32,
                buf@ == u64_le_bytes(self.slot.0) + usize_le_bytes(self.tag.len)
                    + self.tag.root@ + self.parent_hash.0@.take(j as int),
            decreases 32 - j,
        {
            buf.push(self.parent_hash.0[j]);
            assert(self.parent_hash.0@.take(j + 1) =~= self.parent_hash.0@.take(j as int).push(
                self.parent_hash.0[j as int],
            ));
            j = j + 1;
        }
        assert(self.parent_hash.0@.take(32) =~= self.parent_hash.0@);
        assert(buf@ =~= block_preimage(*self));
        let h = BlockHash(sha256(buf.as_slice()));
        proof {
            assert(exists|x: BlockHash| #[trigger] x.0@ == sha256_digest(block_preimage(*self))) by {
                assert(h.0@ == sha256_digest(block_preimage(*self)));
            }
            let c = block_hash_of(*self);
            assert(c.0 =~= h.0);
        }
        h
    }

    pub fn is_timeout(&self) -> (t: bool)
        ensures
            t == spec_is_timeout(*self),
    {
        self.tag.len == 0 && BlockHash(self.tag.root).is_zero() && self.parent_hash.is_zero()
    }
}

/// The special block of a slot that timed out.
pub fn timeout_block(slot: Slot) -> (b: Block)
    ensures
        b == spec_timeout_block(slot),
        spec_is_timeout(b),
{
    let b = Block { slot, tag: Tag { len: 0, root: [0u8; 32] }, parent_hash: BlockHash([0u8; 32]) };
    b
}

/// The genesis block: the timeout block of slot 0.
pub fn genesis() -> (b: Block)
    ensures
        b == spec_timeout_block(Slot(0)),
{
    Block { slot: Slot::new(0), tag: Tag { len: 0, root: [0u8; 32] }, parent_hash: BlockHash::zero() }
}

} // verus!
