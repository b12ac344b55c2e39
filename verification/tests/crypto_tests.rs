use kudzu_bft::crypto::{decode, encode, merkle_tree, verify_proof, Fragment};
use rs_merkle::Hasher;

fn payload(len: usize) -> Vec<u8> {
    (0..len).map(|i| (i * 7 + 3) as u8).collect()
}

#[test]
fn encode_splits_into_padded_chunks() {
    let data = payload(10);
    let frags = encode(&data, 5, 3).unwrap();
    assert_eq!(frags.len(), 5);
    for f in &frags {
        assert_eq!(f.0.len(), 4);
    }
    assert_eq!(frags[0].0, data[0..4].to_vec());
    assert_eq!(frags[1].0, data[4..8].to_vec());
    assert_eq!(frags[2].0, vec![data[8], data[9], 0, 0]);
}

#[test]
fn encode_parameter_errors() {
    assert_eq!(encode(&payload(8), 3, 4).err().unwrap(), "bad params");
    assert_eq!(encode(&payload(8), 3, 0).err().unwrap(), "bad params");
    assert_eq!(encode(&payload(8), 4, 4).err().unwrap(), "TooFewParityShards");
    assert_eq!(encode(&payload(8), 300, 4).err().unwrap(), "TooManyShards");
    assert_eq!(encode(&[], 7, 3).err().unwrap(), "EmptyShard");
}

#[test]
fn decode_round_trip_with_missing_fragments() {
    let data = payload(101);
    let (n, k) = (7, 3);
    let frags = encode(&data, n, k).unwrap();
    let mut opt: Vec<Option<Fragment>> = frags.iter().cloned().map(Some).collect();
    opt[0] = None;
    opt[2] = None;
    opt[5] = None;
    opt[6] = None;
    assert_eq!(decode(&opt, data.len(), n, k).unwrap(), data);
    let all: Vec<Option<Fragment>> = frags.iter().cloned().map(Some).collect();
    assert_eq!(decode(&all, data.len(), n, k).unwrap(), data);
}

#[test]
fn decode_truncates_to_len() {
    let data = payload(9);
    let frags = encode(&data, 4, 2).unwrap();
    let opt: Vec<Option<Fragment>> = frags.iter().cloned().map(Some).collect();
    assert_eq!(decode(&opt, 4, 4, 2).unwrap(), data[..4].to_vec());
    let long = decode(&opt, 1000, 4, 2).unwrap();
    assert_eq!(long.len(), 10);
    assert_eq!(long[..9].to_vec(), data);
    assert_eq!(long[9], 0);
}

#[test]
fn decode_errors() {
    let data = payload(30);
    let frags = encode(&data, 5, 3).unwrap();
    let mut opt: Vec<Option<Fragment>> = frags.iter().cloned().map(Some).collect();
    opt[0] = None;
    opt[1] = None;
    opt[2] = None;
    assert_eq!(decode(&opt, 30, 5, 3).err().unwrap(), "TooFewShardsPresent");
    let short: Vec<Option<Fragment>> = frags[..4].iter().cloned().map(Some).collect();
    assert_eq!(decode(&short, 30, 5, 3).err().unwrap(), "TooFewShards");
    let mut long: Vec<Option<Fragment>> = frags.iter().cloned().map(Some).collect();
    long.push(None);
    assert_eq!(decode(&long, 30, 5, 3).err().unwrap(), "TooManyShards");
    let mut bad: Vec<Option<Fragment>> = frags.iter().cloned().map(Some).collect();
    bad[3] = Some(Fragment(vec![1, 2]));
    assert_eq!(decode(&bad, 30, 5, 3).err().unwrap(), "IncorrectShardSize");
    let mut empty: Vec<Option<Fragment>> = frags.iter().cloned().map(Some).collect();
    empty[1] = Some(Fragment(vec![]));
    assert_eq!(decode(&empty, 30, 5, 3).err().unwrap(), "EmptyShard");
    assert_eq!(decode(&opt, 30, 5, 5).err().unwrap(), "TooFewParityShards");
}

#[test]
fn merkle_proofs_verify_their_own_fragments() {
    let frags = encode(&payload(64), 7, 3).unwrap();
    let (root, proofs) = merkle_tree(&frags);
    assert_eq!(proofs.len(), 7);
    for i in 0..7 {
        assert_eq!(proofs[i].idx, i);
        assert_eq!(proofs[i].leaves, 7);
        assert!(verify_proof(&root, &frags[i], &proofs[i]));
    }
    assert!(!verify_proof(&root, &frags[1], &proofs[0]));
    let mut tampered = frags[2].clone();
    tampered.0[0] ^= 1;
    assert!(!verify_proof(&root, &tampered, &proofs[2]));
    let mut other_root = root;
    other_root[5] ^= 0x80;
    assert!(!verify_proof(&other_root, &frags[2], &proofs[2]));
}

#[test]
fn merkle_tree_of_nothing_is_zero() {
    let (root, proofs) = merkle_tree(&[]);
    assert_eq!(root, [0u8; 32]);
    assert!(proofs.is_empty());
}

#[test]
fn merkle_root_of_single_fragment_is_its_hash() {
    let f = Fragment(vec![1, 2, 3]);
    let (root, proofs) = merkle_tree(&[f.clone()]);
    assert_eq!(root, rs_merkle::algorithms::Sha256::hash(&[1, 2, 3]));
    assert!(verify_proof(&root, &f, &proofs[0]));
}
