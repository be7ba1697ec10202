//! Merkle trees and their leaves.

use hekate::field::Block128;
use hekate::hashers::{DefaultHasher, Hasher};
use hekate::merkle::leaf::hash_leaf_row_blinded;
use hekate::merkle::MerkleTree;

type H = DefaultHasher;

fn hash_bytes(data: &[u8]) -> [u8; 32] {
    let mut hasher = H::new();
    hasher.update(&[0u8]);
    hasher.update(data);

    hasher.finalize()
}

#[test]
fn merkle_tree_basics() {
    let leaves: Vec<[u8; 32]> = (1..=4u8).map(|i| hash_bytes(&[i])).collect();

    let tree = MerkleTree::<Block128, H>::new(&leaves);
    let root = tree.root();

    assert_ne!(root, [0u8; 32]);

    let proof = tree.prove(2).unwrap();
    assert_eq!(proof.len(), 2, "Proof length should be log2(num_leaves)");

    let is_valid = MerkleTree::<Block128, H>::verify(&root, leaves[2], 2, &proof);
    assert!(is_valid, "Merkle Proof rejected a valid leaf");

    let is_invalid = MerkleTree::<Block128, H>::verify(&root, leaves[0], 2, &proof);
    assert!(!is_invalid, "Merkle Proof accepted a wrong leaf");
}

#[test]
fn merkle_odd_leaves() {
    let leaves: Vec<[u8; 32]> = (1..=3u8).map(|i| hash_bytes(&[i])).collect();
    let tree = MerkleTree::<Block128, H>::new(&leaves);

    assert_eq!(tree.num_leaves(), 4);

    let proof0 = tree.prove(0).unwrap();
    assert!(MerkleTree::<Block128, H>::verify(
        &tree.root(),
        leaves[0],
        0,
        &proof0
    ));

    let proof2 = tree.prove(2).unwrap();
    assert!(MerkleTree::<Block128, H>::verify(
        &tree.root(),
        leaves[2],
        2,
        &proof2
    ));
}

#[test]
fn merkle_empty() {
    let leaves: Vec<[u8; 32]> = vec![];
    let tree = MerkleTree::<Block128, H>::new(&leaves);
    assert_eq!(tree.root(), [0u8; 32]);
    assert_eq!(tree.num_leaves(), 0);
}

#[test]
fn streaming_build_matches_new() {
    let leaves: Vec<[u8; 32]> = (0..1024u32).map(|i| hash_bytes(&i.to_le_bytes())).collect();

    let tree_ref = MerkleTree::<Block128, H>::new(&leaves);

    let (mut tree_stream, leaf_offset) = MerkleTree::<Block128, H>::allocate_tree(leaves.len());
    let leaf_layer = tree_stream.leaves_mut(leaf_offset);

    for (i, slot) in leaf_layer.iter_mut().enumerate() {
        if i < leaves.len() {
            *slot = leaves[i];
        } else {
            *slot = [0u8; 32];
        }
    }

    tree_stream.build_layers(leaf_offset);

    assert_eq!(tree_stream.root(), tree_ref.root());

    for idx in [0usize, 1, 2, 511, 1023] {
        let proof = tree_stream.prove(idx).unwrap();
        assert!(MerkleTree::<Block128, H>::verify(
            &tree_stream.root(),
            leaves[idx],
            idx,
            &proof
        ));
    }
}

#[test]
fn allocate_tree_padding_behavior_matches_new() {
    for n in [3usize, 5, 6] {
        let leaves: Vec<[u8; 32]> = (0..(n as u32))
            .map(|i| hash_bytes(&i.to_le_bytes()))
            .collect();

        let tree_ref = MerkleTree::<Block128, H>::new(&leaves);

        let (mut tree_stream, leaf_offset) = MerkleTree::<Block128, H>::allocate_tree(n);
        let leaf_layer = tree_stream.leaves_mut(leaf_offset);

        for (i, slot) in leaf_layer.iter_mut().enumerate() {
            if i < leaves.len() {
                *slot = leaves[i];
            } else {
                *slot = [0u8; 32];
            }
        }

        tree_stream.build_layers(leaf_offset);

        assert_eq!(tree_stream.num_leaves(), tree_ref.num_leaves());
        assert_eq!(tree_stream.root(), tree_ref.root());

        for (idx, &leaf) in leaves.iter().enumerate() {
            let proof = tree_stream.prove(idx).unwrap();
            assert!(MerkleTree::<Block128, H>::verify(
                &tree_stream.root(),
                leaf,
                idx,
                &proof
            ));
        }
    }
}

#[test]
fn prove_rejects_oob_leaf_index() {
    let leaves: Vec<[u8; 32]> = (0..8u32).map(|i| hash_bytes(&i.to_le_bytes())).collect();
    let tree = MerkleTree::<Block128, H>::new(&leaves);

    assert!(tree.prove(8).is_err());
    assert!(tree.prove(usize::MAX).is_err());
}

#[test]
fn same_leaves_same_root() {
    let leaves: Vec<[u8; 32]> = (0..64u32).map(|i| hash_bytes(&i.to_le_bytes())).collect();

    let t1 = MerkleTree::<Block128, H>::new(&leaves);
    let t2 = MerkleTree::<Block128, H>::new(&leaves);

    assert_eq!(t1.root(), t2.root());
}

#[test]
fn different_leaf_changes_root() {
    let mut leaves: Vec<[u8; 32]> = (0..64u32).map(|i| hash_bytes(&i.to_le_bytes())).collect();

    let t1 = MerkleTree::<Block128, H>::new(&leaves);

    leaves[17] = hash_bytes(b"different");
    let t2 = MerkleTree::<Block128, H>::new(&leaves);

    assert_ne!(t1.root(), t2.root());
}

#[test]
fn hash_leaf_row_blinded_includes_length_prefix() {
    let data = [1u8, 2u8];
    let code = [3u8, 4u8, 5u8];

    let data_views = vec![(&data[..], data.len())];
    let code_views = vec![(&code[..], code.len())];

    let expected = {
        let mut h = H::new();
        h.update(&[0u8]);
        h.update(&(data.len() as u64).to_le_bytes());
        h.update(&data);
        h.update(&code);

        h.finalize()
    };

    let got = hash_leaf_row_blinded::<H>(0, &data_views, &code_views, &[]);
    assert_eq!(got, expected);
}

#[test]
fn hash_leaf_row_blinded_rejects_ambiguous_concatenation() {
    let data_a = [1u8, 2u8];
    let code_a = [3u8];

    let data_b = [1u8];
    let code_b = [2u8, 3u8];

    let h_a = hash_leaf_row_blinded::<H>(
        0,
        &[(&data_a[..], data_a.len())],
        &[(&code_a[..], code_a.len())],
        &[],
    );

    let h_b = hash_leaf_row_blinded::<H>(
        0,
        &[(&data_b[..], data_b.len())],
        &[(&code_b[..], code_b.len())],
        &[],
    );

    assert_ne!(h_a, h_b);
}
