//! Erasure coding of block payloads (Reed-Solomon over GF(2^8), through the
//! `reed-solomon-erasure` crate) and Merkle commitments to the fragments
//! (through the `rs_merkle` crate).

use reed_solomon_erasure::galois_8::ReedSolomon;
use rs_merkle::algorithms::Sha256 as MerkleSha256;
use rs_merkle::{Hasher, MerkleProof, MerkleTree};
use vstd::prelude::*;

verus! {

broadcast use vstd::array::group_array_axioms;

/// One erasure-coded piece of a block's payload.
#[derive(Debug)]
pub struct Fragment(pub Vec<u8>);

impl View for Fragment {
    type V = Seq<u8>;

    open spec fn view(&self) -> Seq<u8> {
        self.0@
    }
}

impl Clone for Fragment {
    fn clone(&self) -> (c: Self)
        ensures
            c@ == self@,
    {
        Fragment(copy_bytes(&self.0))
    }
}

/// A Merkle inclusion proof of the fragment with index `idx` among `leaves` fragments.
#[derive(Debug)]
pub struct Proof {
    pub hashes: Vec<[u8; 32]>,
    pub idx: usize,
    pub leaves: usize,
}

/// The mathematical content of a [`Proof`].
pub struct ProofView {
    pub hashes: Seq<[u8; 32]>,
    pub idx: usize,
    pub leaves: usize,
}

impl View for Proof {
    type V = ProofView;

    open spec fn view(&self) -> ProofView {
        ProofView { hashes: self.hashes@, idx: self.idx, leaves: self.leaves }
    }
}

impl Clone for Proof {
    fn clone(&self) -> (c: Self)
        ensures
            c@ == self@,
    {
        Proof { hashes: copy_hashes(&self.hashes), idx: self.idx, leaves: self.leaves }
    }
}

/// A copy of a byte vector.
pub fn copy_bytes(v: &Vec<u8>) -> (c: Vec<u8>)
    ensures
        c@ == v@,
{
    let mut c: Vec<u8> = Vec::new();
    let mut i: usize = 0;
    while i < v.len()
        invariant
            0 <= i <= v.len(),
            c@ == v@.take(i as int),
        decreases v.len() - i,
    {
        c.push(v[i]);
        assert(v@.take(i + 1) =~= v@.take(i as int).push(v[i as int]));
        i = i + 1;
    }
    assert(v@.take(v.len() as int) =~= v@);
    c
}

/// A copy of a vector of 32-byte hashes.
pub fn copy_hashes(v: &Vec<[u8; 32]>) -> (c: Vec<[u8; 32]>)
    ensures
        c@ == v@,
{
    let mut c: Vec<[u8; 32]> = Vec::new();
    let mut i: usize = 0;
    while i < v.len()
        invariant
            0 <= i <= v.len(),
            c@ == v@.take(i as int),
        decreases v.len() - i,
    {
        c.push(v[i]);
        assert(v@.take(i + 1) =~= v@.take(i as int).push(v[i as int]));
        i = i + 1;
    }
    assert(v@.take(v.len() as int) =~= v@);
    c
}

// ---------------------------------------------------------------------------
// Merkle commitments

/// The leaf hash that `rs_merkle`'s SHA-256 algorithm gives a byte string.
pub uninterp spec fn merkle_leaf_hash(data: Seq<u8>) -> [u8; 32];

/// The root of the `rs_merkle` tree built over `leaves` (`None` for no leaves).
pub uninterp spec fn merkle_root_of(leaves: Seq<[u8; 32]>) -> Option<[u8; 32]>;

/// The helper hashes of `rs_merkle`'s proof that leaf `index` is in the tree over `leaves`.
pub uninterp spec fn merkle_proof_of(leaves: Seq<[u8; 32]>, index: usize) -> Seq<[u8; 32]>;

/// The leaves that an `rs_merkle` tree was built from.
pub uninterp spec fn merkle_tree_leaves(tree: LeafTree) -> Seq<[u8; 32]>;

/// Whether `rs_merkle` accepts the proof `hashes` that `leaf` is leaf `index`
/// of a tree with `total` leaves and root `root`.
pub uninterp spec fn merkle_verifies(
    hashes: Seq<[u8; 32]>,
    root: [u8; 32],
    index: usize,
    leaf: [u8; 32],
    total: usize,
) -> bool;

#[verifier::external_type_specification]
#[verifier::external_body]
pub struct ExMerkleSha256(MerkleSha256);

/// An `rs_merkle` SHA-256 tree, held opaque; its leaves are named by
/// `merkle_tree_leaves`, and `merkle_tree_from_leaves` is its only constructor.
#[verifier::external_body]
pub struct LeafTree {
    tree: MerkleTree<MerkleSha256>,
}

/// Calls `<rs_merkle::algorithms::Sha256 as Hasher>::hash`. The contract claims
/// that the result is the leaf hash of `data`, a function of `data` alone, and
/// that it is the SHA-256 digest of `data` (the crate hashes with `sha2::Sha256`).
#[verifier::external_body]
fn merkle_hash(data: &[u8]) -> (h: [u8; 32])
    ensures
        h == merkle_leaf_hash(data@),
        h@ == crate::hashing::sha256_digest(data@),
{
    MerkleSha256::hash(data)
}

/// Calls `rs_merkle::MerkleTree::from_leaves`. The contract claims that the
/// tree holds exactly the given leaves, in order.
#[verifier::external_body]
fn merkle_tree_from_leaves(leaves: &[[u8; 32]]) -> (t: LeafTree)
    ensures
        merkle_tree_leaves(t) == leaves@,
{
    LeafTree { tree: MerkleTree::<MerkleSha256>::from_leaves(leaves) }
}

/// Calls `rs_merkle::MerkleTree::root`. The contract claims that the root is a
/// function of the tree's leaves, and that a tree with leaves has one (the
/// layers are built whenever there are leaves).
#[verifier::external_body]
fn merkle_tree_root(t: &LeafTree) -> (r: Option<[u8; 32]>)
    ensures
        r == merkle_root_of(merkle_tree_leaves(*t)),
        merkle_tree_leaves(*t).len() > 0 ==> r is Some,
{
    t.tree.root()
}

/// Calls `rs_merkle::MerkleTree::proof` for the single leaf `index` and takes
/// the proof's hashes (`MerkleProof::proof_hashes`). The contract claims that
/// they are a function of the tree's leaves and of `index`.
#[verifier::external_body]
fn merkle_tree_proof(t: &LeafTree, index: usize) -> (hashes: Vec<[u8; 32]>)
    ensures
        hashes@ == merkle_proof_of(merkle_tree_leaves(*t), index),
{
    t.tree.proof(&[index]).proof_hashes().to_vec()
}

/// Calls `rs_merkle::MerkleProof::verify` on a proof made of `hashes`, for the
/// single leaf `leaf` at `index`. The contract claims that the answer is a
/// function of the arguments and, as the crate documents, that a proof taken
/// from a tree is accepted for the leaf it was taken for, against that tree's root.
#[verifier::external_body]
fn merkle_proof_verify(hashes: Vec<[u8; 32]>, root: [u8; 32], index: usize, leaf: [u8; 32], total: usize) -> (ok: bool)
    ensures
        ok == merkle_verifies(hashes@, root, index, leaf, total),
        forall|leaves: Seq<[u8; 32]>|
            #![trigger merkle_proof_of(leaves, index), merkle_root_of(leaves)]
            index < total && leaves.len() == total && leaves[index as int] == leaf
                && merkle_root_of(leaves) == Some(root) && merkle_proof_of(leaves, index) == hashes@
                ==> ok,
{
    MerkleProof::<MerkleSha256>::new(hashes).verify(root, &[index], &[leaf], total)
}

/// The Merkle leaves of a list of fragments: the hash of each.
pub open spec fn fragment_leaves(frags: Seq<Seq<u8>>) -> Seq<[u8; 32]> {
    Seq::new(frags.len(), |i: int| merkle_leaf_hash(frags[i]))
}

/// The Merkle root committed to for `frags`: the tree's root, or zero bytes when there is none.
pub open spec fn spec_merkle_root(frags: Seq<Seq<u8>>) -> [u8; 32] {
    if frags.len() == 0 {
        crate::block::zero32()
    } else {
        match merkle_root_of(fragment_leaves(frags)) {
            Some(r) => r,
            None => crate::block::zero32(),
        }
    }
}

/// The inclusion proof of fragment `i` among `frags`.
pub open spec fn spec_merkle_proof(frags: Seq<Seq<u8>>, i: int) -> ProofView {
    ProofView { hashes: merkle_proof_of(fragment_leaves(frags), i as usize), idx: i as usize, leaves: frags.len() as usize }
}

/// Builds the Merkle tree over the hashes of `frags`; returns its root and one
/// inclusion proof per fragment.
pub fn merkle_tree(frags: &[Fragment]) -> (out: ([u8; 32], Vec<Proof>))
    ensures
        out.0 == spec_merkle_root(fragment_views(frags@)),
        frags@.len() > 0 ==> merkle_root_of(fragment_leaves(fragment_views(frags@))) is Some,
        out.1@.len() == frags@.len() <= usize::MAX,
        forall|i: int| 0 <= i < frags@.len() ==> #[trigger] out.1@[i]@ == spec_merkle_proof(fragment_views(frags@), i),
{
    let n = frags.len();
    if n == 0 {
        return ([0u8; 32], Vec::new());
    }
    let mut leaves: Vec<[u8; 32]> = Vec::new();
    let mut i: usize = 0;
    while i < n
        invariant
            n == frags@.len(),
            0 <= i <= n,
            leaves@ == fragment_leaves(fragment_views(frags@)).take(i as int),
        decreases n - i,
    {
        let h = merkle_hash(frags[i].0.as_slice());
        leaves.push(h);
        assert(fragment_leaves(fragment_views(frags@)).take(i + 1) =~= fragment_leaves(fragment_views(frags@)).take(i as int).push(h));
        i = i + 1;
    }
    assert(fragment_leaves(fragment_views(frags@)).take(n as int) =~= fragment_leaves(fragment_views(frags@)));
    let tree = merkle_tree_from_leaves(leaves.as_slice());
    let root = match merkle_tree_root(&tree) {
        Some(r) => r,
        None => [0u8; 32],
    };
    let mut proofs: Vec<Proof> = Vec::new();
    let mut j: usize = 0;
    while j < n
        invariant
            n == frags@.len(),
            0 <= j <= n,
            merkle_tree_leaves(tree) == fragment_leaves(fragment_views(frags@)),
            proofs@.len() == j,
            forall|m: int| 0 <= m < j ==> #[trigger] proofs@[m]@ == spec_merkle_proof(fragment_views(frags@), m),
        decreases n - j,
    {
        let hashes = merkle_tree_proof(&tree, j);
        proofs.push(Proof { hashes, idx: j, leaves: n });
        j = j + 1;
    }
    (root, proofs)
}

/// Whether `proof` shows that `frag` is committed to by `root`.
pub fn verify_proof(root: &[u8; 32], frag: &Fragment, proof: &Proof) -> (ok: bool)
    ensures
        ok == merkle_verifies(proof.hashes@, *root, proof.idx, merkle_leaf_hash(frag@), proof.leaves),
        forall|frags: Seq<Seq<u8>>, i: int|
            #![trigger spec_merkle_proof(frags, i)]
            0 <= i < frags.len() <= usize::MAX && frags[i] == frag@ && *root == spec_merkle_root(frags)
                && proof@ == spec_merkle_proof(frags, i)
                && merkle_root_of(fragment_leaves(frags)) is Some ==> ok,
{
    let leaf = merkle_hash(frag.0.as_slice());
    let ok = merkle_proof_verify(copy_hashes(&proof.hashes), *root, proof.idx, leaf, proof.leaves);
    proof {
        assert forall|frags: Seq<Seq<u8>>, i: int|
            #![trigger spec_merkle_proof(frags, i)]
            0 <= i < frags.len() <= usize::MAX && frags[i] == frag@ && *root == spec_merkle_root(frags)
                && proof@ == spec_merkle_proof(frags, i)
                && merkle_root_of(fragment_leaves(frags)) is Some implies ok by {
            let leaves = fragment_leaves(frags);
            assert(leaves[i] == leaf);
            assert(merkle_proof_of(leaves, proof.idx) == proof.hashes@);
            assert(merkle_root_of(leaves) == Some(*root));
        }
    }
    ok
}

// ---------------------------------------------------------------------------
// Reed-Solomon erasure coding

/// The parity shards that `reed-solomon-erasure` (GF(2^8)) computes for the
/// given data shards.
pub uninterp spec fn rs_parity(data_shards: Seq<Seq<u8>>, parity_count: usize) -> Seq<Seq<u8>>;

/// All shards, as `reed-solomon-erasure` (GF(2^8)) reconstructs them from
/// those present.
pub uninterp spec fn rs_reconstructed(
    data_count: usize,
    parity_count: usize,
    shards: Seq<Option<Seq<u8>>>,
) -> Seq<Seq<u8>>;

/// The byte strings held by a list of vectors.
pub open spec fn shard_views(s: Seq<Vec<u8>>) -> Seq<Seq<u8>> {
    Seq::new(s.len(), |i: int| s[i]@)
}

/// The byte strings held by a list of optional vectors.
pub open spec fn opt_shard_views(s: Seq<Option<Vec<u8>>>) -> Seq<Option<Seq<u8>>> {
    Seq::new(
        s.len(),
        |i: int|
            match s[i] {
                Some(v) => Some(v@),
                None => None,
            },
    )
}

/// The error that `ReedSolomon::new(data, parity)` reports, by its name.
pub open spec fn rs_setup_error(data_count: usize, parity_count: usize) -> Option<Seq<char>> {
    if data_count == 0 {
        Some("TooFewDataShards"@)
    } else if parity_count == 0 {
        Some("TooFewParityShards"@)
    } else if data_count + parity_count > 256 {
        Some("TooManyShards"@)
    } else {
        None
    }
}

/// The error reported when `count` shards are given to a codec for `total`.
pub open spec fn rs_count_error(total: int, count: int) -> Option<Seq<char>> {
    if count < total {
        Some("TooFewShards"@)
    } else if count > total {
        Some("TooManyShards"@)
    } else {
        None
    }
}

/// The error that encoding `shards` reports, if any: the codec's parameters,
/// the number of shards, then their sizes are checked in turn.
pub open spec fn rs_encode_error(data_count: usize, parity_count: usize, shards: Seq<Seq<u8>>) -> Option<Seq<char>> {
    if rs_setup_error(data_count, parity_count) is Some {
        rs_setup_error(data_count, parity_count)
    } else if rs_count_error(data_count + parity_count, shards.len() as int) is Some {
        rs_count_error(data_count + parity_count, shards.len() as int)
    } else if shards[0].len() == 0 {
        Some("EmptyShard"@)
    } else if exists|i: int| 0 <= i < shards.len() && #[trigger] shards[i].len() != shards[0].len() {
        Some("IncorrectShardSize"@)
    } else {
        None
    }
}

/// The size check of reconstruction, over the shards from index `i` on, after
/// the present shards before `i` had size `cur`.
pub open spec fn present_size_error(s: Seq<Option<Seq<u8>>>, i: int, cur: Option<nat>) -> Option<Seq<char>>
    decreases s.len() - i,
{
    if i < 0 || i >= s.len() {
        None
    } else {
        match s[i] {
            None => present_size_error(s, i + 1, cur),
            Some(x) => if x.len() == 0 {
                Some("EmptyShard"@)
            } else if cur is Some && cur->0 != x.len() {
                Some("IncorrectShardSize"@)
            } else {
                present_size_error(s, i + 1, Some(x.len()))
            },
        }
    }
}

/// The number of shards present.
pub open spec fn present_count(s: Seq<Option<Seq<u8>>>) -> nat
    decreases s.len(),
{
    if s.len() == 0 {
        0
    } else {
        present_count(s.drop_last()) + if s.last() is Some { 1nat } else { 0nat }
    }
}

/// The error that reconstructing `shards` reports, if any.
pub open spec fn rs_reconstruct_error(
    data_count: usize,
    parity_count: usize,
    shards: Seq<Option<Seq<u8>>>,
) -> Option<Seq<char>> {
    if rs_setup_error(data_count, parity_count) is Some {
        rs_setup_error(data_count, parity_count)
    } else if rs_count_error(data_count + parity_count, shards.len() as int) is Some {
        rs_count_error(data_count + parity_count, shards.len() as int)
    } else if present_size_error(shards, 0, None) is Some {
        present_size_error(shards, 0, None)
    } else if present_count(shards) < data_count {
        Some("TooFewShardsPresent"@)
    } else {
        None
    }
}

/// Calls `ReedSolomon::new(data_count, parity_count)` and `ReedSolomon::encode`
/// on `shards`. The contract claims what the crate's source shows: which error
/// (by its `Debug` name) comes on which input, that nothing changes then, and
/// that on success the data shards stay and the parity shards, of the same
/// size, are the named function of the data shards.
#[verifier::external_body]
fn rs_encode(data_count: usize, parity_count: usize, shards: &mut Vec<Vec<u8>>) -> (r: Result<(), String>)
    requires
        data_count + parity_count <= usize::MAX,
    ensures
        match rs_encode_error(data_count, parity_count, shard_views(old(shards)@)) {
            Some(e) => r matches Err(m) && m@ == e && final(shards)@ == old(shards)@,
            None => {
                &&& r is Ok
                &&& final(shards)@.len() == old(shards)@.len()
                &&& final(shards)@.len() == data_count + rs_parity(
                    shard_views(old(shards)@).take(data_count as int),
                    parity_count,
                ).len()
                &&& forall|i: int|
                    0 <= i < final(shards)@.len() ==> (#[trigger] final(shards)@[i]@).len() == old(shards)@[0]@.len()
                &&& forall|i: int| 0 <= i < data_count ==> #[trigger] final(shards)@[i]@ == old(shards)@[i]@
                &&& forall|j: int|
                    0 <= j < parity_count ==> #[trigger] final(shards)@[data_count + j]@ == rs_parity(
                        shard_views(old(shards)@).take(data_count as int),
                        parity_count,
                    )[j]
            },
        },
{
    match ReedSolomon::new(data_count, parity_count) {
        Ok(rs) => match rs.encode(shards) {
            Ok(()) => Ok(()),
            Err(e) => Err(format!("{:?}", e)),
        },
        Err(e) => Err(format!("{:?}", e)),
    }
}

/// Whether the shards present agree with the code word of data shards `d`
/// (`d` followed by its parity shards, all of one nonzero size), and at least
/// as many are present as there are data shards.
pub open spec fn codeword_agrees(
    d: Seq<Seq<u8>>,
    data_count: usize,
    parity_count: usize,
    shards: Seq<Option<Seq<u8>>>,
) -> bool {
    let cw = d + rs_parity(d, parity_count);
    &&& rs_setup_error(data_count, parity_count) is None
    &&& d.len() == data_count
    &&& rs_parity(d, parity_count).len() == parity_count
    &&& d[0].len() > 0
    &&& forall|i: int| 0 <= i < cw.len() ==> (#[trigger] cw[i]).len() == d[0].len()
    &&& shards.len() == cw.len()
    &&& present_count(shards) >= data_count
    &&& forall|i: int| 0 <= i < shards.len() ==> ((#[trigger] shards[i]) matches Some(x) ==> x == cw[i])
}

/// Calls `ReedSolomon::new(data_count, parity_count)` and
/// `ReedSolomon::reconstruct` on `shards`. The contract claims what the
/// crate's source and documentation show: which error (by its `Debug` name)
/// comes on which input, that nothing changes then, and that on success every
/// shard is present, those present before are unchanged, and all are the
/// named reconstruction; and, as the crate's README shows, that shards
/// taken from an encoding, with at most `parity_count` of them missing, are
/// reconstructed to that encoding.
#[verifier::external_body]
fn rs_reconstruct(data_count: usize, parity_count: usize, shards: &mut Vec<Option<Vec<u8>>>) -> (r: Result<(), String>)
    requires
        data_count + parity_count <= usize::MAX,
    ensures
        match rs_reconstruct_error(data_count, parity_count, opt_shard_views(old(shards)@)) {
            Some(e) => r matches Err(m) && m@ == e && final(shards)@ == old(shards)@,
            None => {
                &&& r is Ok
                &&& final(shards)@.len() == old(shards)@.len()
                &&& final(shards)@.len() == rs_reconstructed(data_count, parity_count, opt_shard_views(old(shards)@)).len()
                &&& forall|i: int|
                    0 <= i < final(shards)@.len() ==> ((#[trigger] final(shards)@[i]) matches Some(v) && v@
                        == rs_reconstructed(data_count, parity_count, opt_shard_views(old(shards)@))[i])
                &&& forall|i: int|
                    0 <= i < old(shards)@.len() && (#[trigger] old(shards)@[i]) is Some ==> final(shards)@[i]->0@
                        == old(shards)@[i]->0@
            },
        },
        forall|d: Seq<Seq<u8>>|
            #![trigger rs_parity(d, parity_count)]
            codeword_agrees(d, data_count, parity_count, opt_shard_views(old(shards)@)) ==> {
                &&& r is Ok
                &&& forall|i: int|
                    0 <= i < final(shards)@.len() ==> ((#[trigger] final(shards)@[i]) matches Some(v) && v@ == (d
                        + rs_parity(d, parity_count))[i])
            },
{
    match ReedSolomon::new(data_count, parity_count) {
        Ok(rs) => match rs.reconstruct(shards.as_mut_slice()) {
            Ok(()) => Ok(()),
            Err(e) => Err(format!("{:?}", e)),
        },
        Err(e) => Err(format!("{:?}", e)),
    }
}

/// The size of each of `k` chunks that `len` bytes are split into.
pub open spec fn chunk_size(len: nat, k: nat) -> nat {
    ((len + k - 1) / (k as int)) as nat
}

/// Chunk `i` of `data` split into `k` chunks, padded with zeros.
pub open spec fn data_chunk(data: Seq<u8>, k: nat, i: int) -> Seq<u8> {
    let cs = chunk_size(data.len(), k);
    Seq::new(cs, |j: int| if i * cs + j < data.len() { data[i * cs + j] } else { 0u8 })
}

/// The `k` data shards of `data`.
pub open spec fn data_chunks(data: Seq<u8>, k: nat) -> Seq<Seq<u8>> {
    Seq::new(k, |i: int| data_chunk(data, k, i))
}

/// The shards handed to the encoder: the data chunks, then `n - k` zeroed parity shards.
pub open spec fn unencoded_shards(data: Seq<u8>, n: nat, k: nat) -> Seq<Seq<u8>> {
    data_chunks(data, k) + Seq::new((n - k) as nat, |i: int| Seq::new(chunk_size(data.len(), k), |j: int| 0u8))
}

/// The `n` fragments of `data`: its `k` data chunks, then their parity shards.
pub open spec fn encoded_fragments(data: Seq<u8>, n: nat, k: nat) -> Seq<Seq<u8>> {
    data_chunks(data, k) + rs_parity(data_chunks(data, k), (n - k) as usize)
}

/// The byte strings of a list of fragments.
pub open spec fn fragment_views(s: Seq<Fragment>) -> Seq<Seq<u8>> {
    Seq::new(s.len(), |i: int| s[i]@)
}

/// Whether encoding `data` into `n` fragments, `k` of them data, succeeds;
/// then every fragment has the chunk size.
pub open spec fn encode_succeeds(data: Seq<u8>, n: nat, k: nat) -> bool {
    &&& 0 < k <= n
    &&& rs_encode_error(k as usize, (n - k) as usize, unencoded_shards(data, n, k)) is None
    &&& rs_parity(data_chunks(data, k), (n - k) as usize).len() == n - k
    &&& forall|j: int|
        0 <= j < n - k ==> (#[trigger] rs_parity(data_chunks(data, k), (n - k) as usize)[j]).len() == chunk_size(
            data.len(),
            k,
        )
}

proof fn lemma_chunk_bounds(len: nat, k: nat, i: nat)
    requires
        k > 0,
        i < k,
    ensures
        k * chunk_size(len, k) <= len + k - 1,
        i * chunk_size(len, k) + chunk_size(len, k) <= k * chunk_size(len, k),
{
    let cs = chunk_size(len, k);
    assert(cs * (k as int) <= len + k - 1) by (nonlinear_arith)
        requires
            cs == (len + k - 1) / (k as int),
            k > 0,
            len + k - 1 >= 0,
    ;
    assert(i * cs + cs <= k * cs) by (nonlinear_arith)
        requires
            i < k,
    ;
}

/// Splits `data` into `k` data shards and `n - k` parity shards.
pub fn encode(data: &[u8], n: usize, k: usize) -> (r: Result<Vec<Fragment>, String>)
    requires
        data@.len() + k <= usize::MAX,
    ensures
        (k > n || k == 0) ==> (r matches Err(e) && e@ == "bad params"@),
        (0 < k <= n) ==> match rs_encode_error(k, (n - k) as usize, unencoded_shards(data@, n as nat, k as nat)) {
            Some(e) => r matches Err(m) && m@ == e,
            None => r matches Ok(frags) && frags@.len() == n && fragment_views(frags@) == encoded_fragments(data@, n as nat, k as nat),
        },
        r is Ok ==> encode_succeeds(data@, n as nat, k as nat),
{
    if k > n || k == 0 {
        return Err("bad params".to_owned());
    }
    let len = data.len();
    let chunk_size = (len + k - 1) / k;
    let ghost cs = chunk_size as nat;
    assert(cs == crate::crypto::chunk_size(len as nat, k as nat));
    let mut shards: Vec<Vec<u8>> = Vec::new();
    let mut i: usize = 0;
    while i < k
        invariant
            len == data@.len(),
            data@.len() + k <= usize::MAX,
            0 < k <= n,
            0 <= i <= k,
            chunk_size == crate::crypto::chunk_size(len as nat, k as nat),
            shard_views(shards@) == data_chunks(data@, k as nat).take(i as int),
        decreases k - i,
    {
        proof {
            lemma_chunk_bounds(len as nat, k as nat, i as nat);
        }
        let start = i * chunk_size;
        let mut shard: Vec<u8> = Vec::new();
        let mut j: usize = 0;
        while j < chunk_size
            invariant
                len == data@.len(),
                0 <= j <= chunk_size,
                start == i * chunk_size,
                start + chunk_size <= len + k - 1,
                data@.len() + k <= usize::MAX,
                chunk_size == crate::crypto::chunk_size(len as nat, k as nat),
                shard@ == data_chunk(data@, k as nat, i as int).take(j as int),
            decreases chunk_size - j,
        {
            if start + j < len {
                shard.push(data[start + j]);
            } else {
                shard.push(0u8);
            }
            assert(shard@ =~= data_chunk(data@, k as nat, i as int).take(j + 1));
            j = j + 1;
        }
        assert(shard@ =~= data_chunk(data@, k as nat, i as int));
        let ghost prev = shards@;
        let ghost sv = shard@;
        assert(shard_views(prev).len() == prev.len());
        assert(prev.len() == i);
        shards.push(shard);
        assert(shard_views(shards@) =~= data_chunks(data@, k as nat).take(i + 1)) by {
            assert forall|x: int| 0 <= x < i + 1 implies #[trigger] shard_views(shards@)[x]
                == data_chunks(data@, k as nat).take(i + 1)[x] by {
                if x < i {
                    assert(shards@[x] == prev[x]);
                    assert(shard_views(prev)[x] == data_chunks(data@, k as nat).take(i as int)[x]);
                } else {
                    assert(shards@[x]@ == sv);
                }
            }
        }
        i = i + 1;
    }
    let mut p: usize = 0;
    while p < n - k
        invariant
            0 < k <= n,
            0 <= p <= n - k,
            chunk_size == crate::crypto::chunk_size(len as nat, k as nat),
            len == data@.len(),
            shard_views(shards@) == unencoded_shards(data@, n as nat, k as nat).take(k + p),
        decreases n - k - p,
    {
        let mut zeros: Vec<u8> = Vec::new();
        let mut j: usize = 0;
        while j < chunk_size
            invariant
                0 <= j <= chunk_size,
                zeros@ == Seq::new(j as nat, |m: int| 0u8),
            decreases chunk_size - j,
        {
            zeros.push(0u8);
            assert(zeros@ =~= Seq::new((j + 1) as nat, |m: int| 0u8));
            j = j + 1;
        }
        let ghost prev = shards@;
        let ghost zv = zeros@;
        assert(shard_views(prev).len() == prev.len());
        assert(prev.len() == k + p);
        shards.push(zeros);
        assert(shard_views(shards@) =~= unencoded_shards(data@, n as nat, k as nat).take(k + p + 1)) by {
            assert forall|x: int| 0 <= x < k + p + 1 implies #[trigger] shard_views(shards@)[x]
                == unencoded_shards(data@, n as nat, k as nat).take(k + p + 1)[x] by {
                if x < k + p {
                    assert(shards@[x] == prev[x]);
                    assert(shard_views(prev)[x] == unencoded_shards(data@, n as nat, k as nat).take(k + p)[x]);
                } else {
                    assert(shards@[x]@ == zv);
                    assert(zv =~= Seq::new(chunk_size as nat, |m: int| 0u8));
                }
            }
        }
        p = p + 1;
    }
    assert(unencoded_shards(data@, n as nat, k as nat).take(n as int) =~= unencoded_shards(data@, n as nat, k as nat));
    let ghost before = shard_views(shards@);
    assert(before.take(k as int) =~= data_chunks(data@, k as nat));
    match rs_encode(k, n - k, &mut shards) {
        Ok(()) => {},
        Err(e) => {
            return Err(e);
        },
    }
    proof {
        assert(before[0] == data_chunk(data@, k as nat, 0));
        assert forall|j: int| 0 <= j < n - k implies (#[trigger] rs_parity(data_chunks(data@, k as nat), (n - k) as usize)[j]).len()
            == crate::crypto::chunk_size(data@.len(), k as nat) by {
            assert(shards@[k + j]@ == rs_parity(before.take(k as int), (n - k) as usize)[j]);
            assert((shards@[k + j]@).len() == before[0].len());
        }
    }
    let mut frags: Vec<Fragment> = Vec::new();
    let mut m: usize = 0;
    while m < n
        invariant
            0 < k <= n,
            shards@.len() == n,
            0 <= m <= n,
            before == unencoded_shards(data@, n as nat, k as nat),
            forall|i: int| 0 <= i < k ==> #[trigger] shards@[i]@ == before[i],
            forall|j: int|
                0 <= j < n - k ==> #[trigger] shards@[k + j]@ == rs_parity(before.take(k as int), (n - k) as usize)[j],
            before.take(k as int) == data_chunks(data@, k as nat),
            n == k + rs_parity(before.take(k as int), (n - k) as usize).len(),
            fragment_views(frags@) == encoded_fragments(data@, n as nat, k as nat).take(m as int),
        decreases n - m,
    {
        let f = Fragment(copy_bytes(&shards[m]));
        let ghost prev = frags@;
        assert(fragment_views(prev).len() == prev.len());
        assert(prev.len() == m);
        frags.push(f);
        proof {
            if m < k {
                assert(f@ == encoded_fragments(data@, n as nat, k as nat)[m as int]);
            } else {
                let j = m - k;
                assert(shards@[k + j]@ == rs_parity(before.take(k as int), (n - k) as usize)[j as int]);
                assert(f@ == encoded_fragments(data@, n as nat, k as nat)[m as int]);
            }
        }
        assert(fragment_views(frags@) =~= encoded_fragments(data@, n as nat, k as nat).take(m + 1)) by {
            assert forall|x: int| 0 <= x < m + 1 implies #[trigger] fragment_views(frags@)[x]
                == encoded_fragments(data@, n as nat, k as nat).take(m + 1)[x] by {
                if x < m {
                    assert(frags@[x] == prev[x]);
                    assert(fragment_views(prev)[x] == encoded_fragments(data@, n as nat, k as nat).take(m as int)[x]);
                }
            }
        }
        m = m + 1;
    }
    assert(encoded_fragments(data@, n as nat, k as nat).take(n as int) =~= encoded_fragments(data@, n as nat, k as nat));
    Ok(frags)
}

/// The byte strings of a list of optional fragments.
pub open spec fn opt_fragment_views(s: Seq<Option<Fragment>>) -> Seq<Option<Seq<u8>>> {
    Seq::new(
        s.len(),
        |i: int|
            match s[i] {
                Some(f) => Some(f@),
                None => None,
            },
    )
}

/// The concatenation of a list of byte strings.
pub open spec fn concat_all(s: Seq<Seq<u8>>) -> Seq<u8>
    decreases s.len(),
{
    if s.len() == 0 {
        Seq::empty()
    } else {
        concat_all(s.drop_last()) + s.last()
    }
}

/// The first `len` bytes of `s`, or all of `s` when it is shorter.
pub open spec fn truncated(s: Seq<u8>, len: nat) -> Seq<u8> {
    if len < s.len() {
        s.take(len as int)
    } else {
        s
    }
}

/// The payload that decoding gives: the reconstructed data shards, concatenated and cut to `len`.
pub open spec fn spec_decoded(shards: Seq<Option<Seq<u8>>>, len: nat, n: nat, k: nat) -> Seq<u8> {
    truncated(concat_all(rs_reconstructed(k as usize, (n - k) as usize, shards).take(k as int)), len)
}

/// The data padded with zeros to `m` bytes.
pub open spec fn padded(data: Seq<u8>, m: nat) -> Seq<u8> {
    Seq::new(m, |j: int| if j < data.len() { data[j] } else { 0u8 })
}

proof fn lemma_concat_chunks_prefix(data: Seq<u8>, k: nat, m: nat)
    requires
        k > 0,
        m <= k,
    ensures
        concat_all(data_chunks(data, k).take(m as int)) =~= padded(data, m * chunk_size(data.len(), k)),
    decreases m,
{
    let cs = chunk_size(data.len(), k);
    if m > 0 {
        lemma_concat_chunks_prefix(data, k, (m - 1) as nat);
        assert(data_chunks(data, k).take(m as int).drop_last() =~= data_chunks(data, k).take(m - 1));
        assert(m * cs == (m - 1) * cs + cs) by (nonlinear_arith);
        let prev = padded(data, ((m - 1) * cs) as nat);
        let last = data_chunk(data, k, m - 1);
        assert(data_chunks(data, k).take(m as int).last() == last);
        assert(concat_all(data_chunks(data, k).take(m as int)) == prev + last);
        assert forall|j: int| 0 <= j < m * cs implies #[trigger] (prev + last)[j] == padded(data, m * cs)[j] by {
            if j >= (m - 1) * cs {
                assert((m - 1) * cs + (j - (m - 1) * cs) == j);
                assert((prev + last)[j] == last[j - (m - 1) * cs]);
            } else {
                assert((prev + last)[j] == prev[j]);
            }
        }
        assert((prev + last).len() == m * cs);
    } else {
        assert(data_chunks(data, k).take(0) =~= Seq::<Seq<u8>>::empty());
    }
}

/// Splitting `data` into `k` chunks and concatenating them gives back `data`, padded.
pub proof fn lemma_chunks_concat(data: Seq<u8>, k: nat)
    requires
        k > 0,
    ensures
        truncated(concat_all(data_chunks(data, k)), data.len()) == data,
{
    lemma_concat_chunks_prefix(data, k, k);
    assert(data_chunks(data, k).take(k as int) =~= data_chunks(data, k));
    let cs = chunk_size(data.len(), k);
    lemma_chunk_bounds(data.len(), k, 0);
    assert(k * cs >= data.len()) by (nonlinear_arith)
        requires
            cs == (data.len() + k - 1) / (k as int),
            k > 0,
    ;
    assert(truncated(padded(data, k * cs), data.len()) =~= data);
}

/// Reconstructs the original `len` bytes from the fragments that are present.
pub fn decode(frags: &[Option<Fragment>], len: usize, n: usize, k: usize) -> (r: Result<Vec<u8>, String>)
    requires
        k <= n,
    ensures
        match rs_reconstruct_error(k, (n - k) as usize, opt_fragment_views(frags@)) {
            Some(e) => r matches Err(m) && m@ == e,
            None => r matches Ok(out) && out@ == spec_decoded(opt_fragment_views(frags@), len as nat, n as nat, k as nat),
        },
        forall|data: Seq<u8>|
            #![trigger encoded_fragments(data, n as nat, k as nat)]
            encode_succeeds(data, n as nat, k as nat) && data.len() == len && frags@.len() == n
                && present_count(opt_fragment_views(frags@)) >= k && (forall|i: int|
                0 <= i < frags@.len() ==> ((#[trigger] frags@[i]) matches Some(f) ==> f@ == encoded_fragments(
                    data,
                    n as nat,
                    k as nat,
                )[i])) ==> (r matches Ok(out) && out@ == data),
{
    let mut shards: Vec<Option<Vec<u8>>> = Vec::new();
    let mut i: usize = 0;
    while i < frags.len()
        invariant
            0 <= i <= frags@.len(),
            opt_shard_views(shards@) == opt_fragment_views(frags@).take(i as int),
        decreases frags@.len() - i,
    {
        let s = match &frags[i] {
            Some(f) => Some(copy_bytes(&f.0)),
            None => None,
        };
        let ghost prev = shards@;
        assert(opt_shard_views(prev).len() == prev.len());
        shards.push(s);
        assert(opt_shard_views(shards@) =~= opt_fragment_views(frags@).take(i + 1)) by {
            assert forall|x: int| 0 <= x < i + 1 implies #[trigger] opt_shard_views(shards@)[x]
                == opt_fragment_views(frags@).take(i + 1)[x] by {
                if x < i {
                    assert(shards@[x] == prev[x]);
                    assert(opt_shard_views(prev)[x] == opt_fragment_views(frags@).take(i as int)[x]);
                }
            }
        }
        i = i + 1;
    }
    assert(opt_fragment_views(frags@).take(frags@.len() as int) =~= opt_fragment_views(frags@));
    let ghost before = opt_shard_views(shards@);
    assert(before == opt_fragment_views(frags@));
    match rs_reconstruct(k, n - k, &mut shards) {
        Ok(()) => {},
        Err(e) => {
            return Err(e);
        },
    }
    let ghost rec = rs_reconstructed(k, (n - k) as usize, before);
    let mut out: Vec<u8> = Vec::new();
    let mut s: usize = 0;
    while s < k
        invariant
            0 <= s <= k,
            k <= shards@.len(),
            rec.len() == shards@.len(),
            forall|x: int| 0 <= x < shards@.len() ==> ((#[trigger] shards@[x]) matches Some(v) && v@ == rec[x]),
            out@ == concat_all(rec.take(s as int)),
        decreases k - s,
    {
        match &shards[s] {
            Some(v) => {
                let mut b: usize = 0;
                while b < v.len()
                    invariant
                        0 <= b <= v@.len(),
                        out@ == concat_all(rec.take(s as int)) + v@.take(b as int),
                    decreases v@.len() - b,
                {
                    out.push(v[b]);
                    assert(v@.take(b + 1) =~= v@.take(b as int).push(v[b as int]));
                    assert(out@ =~= concat_all(rec.take(s as int)) + v@.take(b + 1));
                    b = b + 1;
                }
                assert(v@.take(v@.len() as int) =~= v@);
                assert(rec.take(s + 1).drop_last() =~= rec.take(s as int));
                assert(v@ == rec[s as int]);
            },
            None => {},
        }
        s = s + 1;
    }
    out.truncate(len);
    assert(out@ =~= spec_decoded(before, len as nat, n as nat, k as nat));
    proof {
        assert forall|data: Seq<u8>|
            #![trigger encoded_fragments(data, n as nat, k as nat)]
            encode_succeeds(data, n as nat, k as nat) && data.len() == len && frags@.len() == n
                && present_count(opt_fragment_views(frags@)) >= k && (forall|i: int|
                0 <= i < frags@.len() ==> ((#[trigger] frags@[i]) matches Some(f) ==> f@ == encoded_fragments(
                    data,
                    n as nat,
                    k as nat,
                )[i])) implies out@ == data by {
            let d = data_chunks(data, k as nat);
            let e = encoded_fragments(data, n as nat, k as nat);
            assert(e == d + rs_parity(d, (n - k) as usize));
            assert(unencoded_shards(data, n as nat, k as nat)[0] == d[0]);
            assert forall|i: int| 0 <= i < e.len() implies (#[trigger] e[i]).len() == d[0].len() by {
                if i >= k {
                    assert(e[i] == rs_parity(d, (n - k) as usize)[i - k]);
                }
            }
            assert forall|i: int| 0 <= i < before.len() implies ((#[trigger] before[i]) matches Some(x) ==> x == e[i]) by {
                if frags@[i] is Some {
                    assert(before[i] == Some(frags@[i]->0@));
                }
            }
            assert(codeword_agrees(d, k, (n - k) as usize, before));
            assert forall|i: int| 0 <= i < rec.len() implies #[trigger] rec[i] == e[i] by {
                assert(shards@[i] matches Some(v) && v@ == rec[i]);
            }
            assert(rec =~= e);
            lemma_chunks_concat(data, k as nat);
            assert(rec.take(k as int) =~= d);
        }
    }
    Ok(out)
}

} // verus!
