use lambdaworks_stark::merkle::merkle_height;
use lambdaworks_stark::merkle::MerkleTree;

#[test]
fn root_of_four_leaves() {
    let tree = MerkleTree::build(&[1, 2, 3, 4]).unwrap();
    assert_eq!(tree.root, 1368765640);
}

#[test]
fn three_leaves_are_padded_with_the_last() {
    let tree = MerkleTree::build(&[1, 2, 3]).unwrap();
    assert_eq!(tree.root, 786334943);
    assert_eq!(tree.root, MerkleTree::build(&[1, 2, 3, 3]).unwrap().root);
}

#[test]
fn root_of_one_leaf_is_its_hash() {
    assert_eq!(MerkleTree::build(&[7]).unwrap().root, 1455346513);
}

#[test]
fn there_is_no_tree_over_nothing() {
    assert!(MerkleTree::build(&[]).is_none());
}

#[test]
fn every_opening_verifies() {
    for len in 1..20usize {
        let leaves: Vec<u32> = (0..len as u32).map(|i| i * 7 + 1).collect();
        let tree = MerkleTree::build(&leaves).unwrap();
        for i in 0..len {
            let proof = tree.get_proof_by_pos(i).unwrap();
            assert_eq!(proof.value, leaves[i]);
            assert_eq!(proof.index, i);
            assert_eq!(proof.merkle_path.len(), merkle_height(len));
            assert!(proof.verify(tree.root));
        }
        assert!(tree.get_proof_by_pos(len).is_none());
    }
}

#[test]
fn a_changed_opening_does_not_verify() {
    let leaves: Vec<u32> = (0..16u32).map(|i| i * i + 3).collect();
    let tree = MerkleTree::build(&leaves).unwrap();
    for i in 0..16 {
        let proof = tree.get_proof_by_pos(i).unwrap();

        let mut changed = proof.clone();
        changed.value ^= 1;
        assert!(!changed.verify(tree.root));

        let mut changed = proof.clone();
        changed.index ^= 1;
        assert!(!changed.verify(tree.root));

        for l in 0..proof.merkle_path.len() {
            let mut changed = proof.clone();
            changed.merkle_path[l] ^= 0x100;
            assert!(!changed.verify(tree.root));
        }

        assert!(!proof.verify(tree.root ^ 1));
    }
}

#[test]
fn height_is_the_logarithm_rounded_up() {
    assert_eq!(merkle_height(0), 0);
    assert_eq!(merkle_height(1), 0);
    assert_eq!(merkle_height(2), 1);
    assert_eq!(merkle_height(3), 2);
    assert_eq!(merkle_height(4), 2);
    assert_eq!(merkle_height(5), 3);
    assert_eq!(merkle_height(1024), 10);
    assert_eq!(merkle_height(1025), 11);
}

#[test]
fn a_position_with_a_bit_above_the_height_does_not_verify() {
    let leaves: Vec<u32> = (0..8u32).map(|i| i * 3 + 2).collect();
    let tree = MerkleTree::build(&leaves).unwrap();
    for pos in 0..8usize {
        let opening = tree.get_proof_by_pos(pos).unwrap();
        assert_eq!(opening.merkle_path.len(), 3);
        assert!(opening.verify(tree.root));
        for bit in 3..20 {
            let mut changed = opening.clone();
            changed.index = pos | (1 << bit);
            assert!(!changed.verify(tree.root));
        }
        // every byte of the position
        for byte in 0..4 {
            let mut changed = opening.clone();
            changed.index = pos ^ (1 << (8 * byte));
            assert!(!changed.verify(tree.root));
        }
    }
    let single = MerkleTree::build(&[7]).unwrap();
    let opening = single.get_proof_by_pos(0).unwrap();
    assert!(opening.verify(single.root));
    let mut changed = opening.clone();
    changed.index = 1;
    assert!(!changed.verify(single.root));
}
