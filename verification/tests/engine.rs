use merkle_engine::hashing::{bytes_eq, concat_bytes, copy_bytes, hash_pair};
use merkle_engine::merkle::{
    build_merkle_tree, generate_proof, root_bytes32, verify_proof, MerkleError, SiblingSide,
};

use sha2::Digest;

fn h(data: &[u8]) -> Vec<u8> {
    sha2::Sha256::digest(data).to_vec()
}

fn cat(a: &[u8], b: &[u8]) -> Vec<u8> {
    let mut r = a.to_vec();
    r.extend_from_slice(b);
    r
}

fn leaf_bytes(i: u32) -> Vec<u8> {
    h(format!("Leaf data {}", i).as_bytes())
}

fn make_leaves(n: u32) -> Vec<Vec<u8>> {
    (0..n).map(leaf_bytes).collect()
}

#[test]
fn round_trip_power_of_two_counts() {
    for n in [1u32, 2, 4, 8, 16, 128] {
        let leaves = make_leaves(n);
        let (tree, _) = build_merkle_tree(&leaves).unwrap();
        for i in 0..n as usize {
            let proof = generate_proof(&tree, i).unwrap();
            let (matches, ops) = verify_proof(&leaves[i], &proof, tree.root());
            assert!(matches, "leaf {} of {} must verify", i, n);
            assert_eq!(ops, proof.len());
        }
    }
}

#[test]
fn round_trip_odd_counts_on_complete_paths() {
    // For odd-tail leaf counts, every index whose upward walk always finds a
    // sibling round-trips; the index that is paired with itself yields an
    // incomplete proof that cannot recompute the duplicated parent.
    let leaves = make_leaves(3);
    let (tree, _) = build_merkle_tree(&leaves).unwrap();
    for i in [0usize, 1] {
        let proof = generate_proof(&tree, i).unwrap();
        let (matches, _) = verify_proof(&leaves[i], &proof, tree.root());
        assert!(matches);
    }
    let proof = generate_proof(&tree, 2).unwrap();
    assert_eq!(proof.len(), 1);
    let (matches, _) = verify_proof(&leaves[2], &proof, tree.root());
    assert!(!matches);

    let leaves = make_leaves(5);
    let (tree, _) = build_merkle_tree(&leaves).unwrap();
    for i in 0..4usize {
        let proof = generate_proof(&tree, i).unwrap();
        let (matches, _) = verify_proof(&leaves[i], &proof, tree.root());
        assert!(matches, "leaf {} of 5 must verify", i);
    }
}

#[test]
fn single_leaf_tree() {
    let leaves = vec![leaf_bytes(0)];
    let (tree, ops) = build_merkle_tree(&leaves).unwrap();
    assert_eq!(ops, 0);
    assert_eq!(tree.levels.len(), 1);
    assert_eq!(tree.root(), &leaves[0]);
    let proof = generate_proof(&tree, 0).unwrap();
    assert!(proof.is_empty());
    let (matches, vops) = verify_proof(&leaves[0], &proof, tree.root());
    assert!(matches);
    assert_eq!(vops, 0);
}

#[test]
fn three_leaves_structure() {
    let leaves = make_leaves(3);
    let (tree, ops) = build_merkle_tree(&leaves).unwrap();
    let h01 = h(&cat(&leaves[0], &leaves[1]));
    let h22 = h(&cat(&leaves[2], &leaves[2]));
    let root = h(&cat(&h01, &h22));
    assert_eq!(tree.levels.len(), 3);
    assert_eq!(tree.levels[1], vec![h01, h22]);
    assert_eq!(tree.levels[2], vec![root.clone()]);
    assert_eq!(tree.root(), &root);
    assert_eq!(ops, 3);
}

#[test]
fn two_leaves_root_is_pair_digest() {
    let leaves = make_leaves(2);
    let (tree, ops) = build_merkle_tree(&leaves).unwrap();
    assert_eq!(tree.root(), &h(&cat(&leaves[0], &leaves[1])));
    assert_eq!(ops, 1);
}

#[test]
fn proof_sides_match_index_parity() {
    let leaves = make_leaves(4);
    let (tree, _) = build_merkle_tree(&leaves).unwrap();
    let first = generate_proof(&tree, 0).unwrap();
    assert_eq!(first.len(), 2);
    assert_eq!(first[0].side, SiblingSide::Right);
    assert_eq!(first[0].sibling, leaves[1]);
    assert_eq!(first[1].side, SiblingSide::Right);
    let last = generate_proof(&tree, 3).unwrap();
    assert_eq!(last.len(), 2);
    assert_eq!(last[0].side, SiblingSide::Left);
    assert_eq!(last[0].sibling, leaves[2]);
    assert_eq!(last[1].side, SiblingSide::Left);
    assert_eq!(last[1].sibling, h(&cat(&leaves[0], &leaves[1])));
}

#[test]
fn tampered_leaf_fails_verification() {
    let leaves = make_leaves(4);
    let (tree, _) = build_merkle_tree(&leaves).unwrap();
    let proof = generate_proof(&tree, 1).unwrap();
    for pos in 0..leaves[1].len() {
        for flip in [1u8, 0x80] {
            let mut bad = leaves[1].clone();
            bad[pos] ^= flip;
            let (matches, _) = verify_proof(&bad, &proof, tree.root());
            assert!(!matches, "byte {} flipped by {:#x} must not verify", pos, flip);
        }
    }
}

#[test]
fn tampered_sibling_fails_verification() {
    let leaves = make_leaves(8);
    let (tree, _) = build_merkle_tree(&leaves).unwrap();
    let proof = generate_proof(&tree, 5).unwrap();
    for entry in 0..proof.len() {
        let mut bad: Vec<_> = proof
            .iter()
            .map(|s| merkle_engine::merkle::ProofStep {
                sibling: s.sibling.clone(),
                side: s.side,
            })
            .collect();
        bad[entry].sibling[0] ^= 0xff;
        let (matches, _) = verify_proof(&leaves[5], &bad, tree.root());
        assert!(!matches, "tampered sibling {} must not verify", entry);
    }
}

#[test]
fn wrong_root_fails_verification() {
    let leaves = make_leaves(4);
    let (tree, _) = build_merkle_tree(&leaves).unwrap();
    let proof = generate_proof(&tree, 2).unwrap();
    let mut wrong = tree.root().clone();
    wrong[31] ^= 1;
    let (matches, _) = verify_proof(&leaves[2], &proof, &wrong);
    assert!(!matches);
}

#[test]
fn index_out_of_range_reported() {
    let leaves = make_leaves(4);
    let (tree, _) = build_merkle_tree(&leaves).unwrap();
    assert_eq!(generate_proof(&tree, 4).unwrap_err(), MerkleError::IndexOutOfRange);
    assert_eq!(generate_proof(&tree, 5).unwrap_err(), MerkleError::IndexOutOfRange);
    assert_eq!(generate_proof(&tree, usize::MAX).unwrap_err(), MerkleError::IndexOutOfRange);
}

#[test]
fn empty_input_reported() {
    let leaves: Vec<Vec<u8>> = Vec::new();
    assert_eq!(build_merkle_tree(&leaves).unwrap_err(), MerkleError::EmptyInput);
}

#[test]
fn hash_operation_counts_for_powers_of_two() {
    for n in [1u32, 2, 4, 8, 128] {
        let leaves = make_leaves(n);
        let (_, ops) = build_merkle_tree(&leaves).unwrap();
        assert_eq!(ops, (n - 1) as usize, "count for {} leaves", n);
    }
}

#[test]
fn root_coercion_accepts_exactly_32_bytes() {
    let leaves = make_leaves(2);
    let (tree, _) = build_merkle_tree(&leaves).unwrap();
    let fixed = root_bytes32(tree.root()).unwrap();
    assert_eq!(&fixed[..], tree.root().as_slice());

    let short = vec![1u8, 2, 3];
    assert_eq!(root_bytes32(&short).unwrap_err(), MerkleError::MalformedRoot);
    let long = vec![0u8; 33];
    assert_eq!(root_bytes32(&long).unwrap_err(), MerkleError::MalformedRoot);
}

#[test]
fn single_short_leaf_root_is_not_fixed_width() {
    // A one-leaf tree passes the leaf through unhashed, so a non-32-byte
    // leaf yields a root the fixed-width boundary must refuse.
    let leaves = vec![b"abc".to_vec()];
    let (tree, _) = build_merkle_tree(&leaves).unwrap();
    assert_eq!(tree.root(), &b"abc".to_vec());
    assert_eq!(root_bytes32(tree.root()).unwrap_err(), MerkleError::MalformedRoot);
}

#[test]
fn byte_helpers_behave() {
    let a = vec![1u8, 2, 3];
    let b = vec![4u8, 5];
    assert_eq!(concat_bytes(&a, &b), vec![1, 2, 3, 4, 5]);
    assert_eq!(copy_bytes(&a), a);
    assert!(bytes_eq(&a, &vec![1u8, 2, 3]));
    assert!(!bytes_eq(&a, &b));
    assert!(!bytes_eq(&a, &vec![1u8, 2, 4]));
    assert_eq!(hash_pair(&a, &b), h(&[1, 2, 3, 4, 5]));
}
