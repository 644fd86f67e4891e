use stark_from_zero::finite_field::FiniteFieldElement;
use stark_from_zero::hashing::hash;
use stark_from_zero::merkle_tree::{
    hash_two_inputs, next_power_of_two, reconstruct_root, MerkleTree,
};

#[test]
fn empty_tree() {
    let tree = MerkleTree::new();
    assert_eq!(tree.root(), None);
    assert_eq!(tree.nodes().len(), 0);
}

#[test]
fn build_empty_tree() {
    let mut tree = MerkleTree::new();

    let elements: Vec<FiniteFieldElement> = Vec::new();
    tree.build(&elements);

    assert_eq!(tree.root(), None);
    assert_eq!(tree.nodes().len(), 1);
    assert_eq!(tree.nodes()[0].len(), 0);
}

#[test]
fn build_tree_one_element() {
    let mut tree = MerkleTree::new();

    let val: i128 = 3;
    let mut elements: Vec<FiniteFieldElement> = Vec::new();

    elements.push(FiniteFieldElement::new(val));
    tree.build(&elements);

    let expected_leaf = hash(val);

    assert_eq!(tree.nodes().len(), 1);
    assert_eq!(tree.nodes()[0].len(), 1);

    assert_eq!(tree.root(), Some(expected_leaf));
    assert_eq!(tree.nodes()[0][0], expected_leaf);
}

#[test]
fn build_tree_two_elements() {
    let mut tree = MerkleTree::new();

    let val1: i128 = 3;
    let val2: i128 = 4;
    let mut elements: Vec<FiniteFieldElement> = Vec::new();

    elements.push(FiniteFieldElement::new(val1));
    elements.push(FiniteFieldElement::new(val2));
    tree.build(&elements);

    let expected_leaf_1 = hash(val1);
    let expected_leaf_2 = hash(val2);
    let expected_root = hash_two_inputs(expected_leaf_1, expected_leaf_2);

    assert_eq!(tree.nodes().len(), 2);
    assert_eq!(tree.nodes()[0].len(), 2);
    assert_eq!(tree.nodes()[1].len(), 1);

    assert_eq!(tree.root(), Some(expected_root));
    assert_eq!(tree.nodes()[0][0], expected_leaf_1);
    assert_eq!(tree.nodes()[0][1], expected_leaf_2);
}

#[test]
fn build_tree_three_elements() {
    let mut tree = MerkleTree::new();

    let val1: i128 = 3;
    let val2: i128 = 4;
    let val3: i128 = 5;
    let mut elements: Vec<FiniteFieldElement> = Vec::new();

    elements.push(FiniteFieldElement::new(val1));
    elements.push(FiniteFieldElement::new(val2));
    elements.push(FiniteFieldElement::new(val3));
    tree.build(&elements);

    let expected_leaf_1 = hash(val1);
    let expected_leaf_2 = hash(val2);
    let expected_leaf_3 = hash(val3);
    let expected_leaf_4 = 0;

    let expected_mid_node1 = hash_two_inputs(expected_leaf_1, expected_leaf_2);
    let expected_mid_node2 = hash_two_inputs(expected_leaf_3, expected_leaf_4);

    let expected_root = hash_two_inputs(expected_mid_node1, expected_mid_node2);

    assert_eq!(tree.nodes().len(), 3);
    assert_eq!(tree.nodes()[0].len(), 4);
    assert_eq!(tree.nodes()[1].len(), 2);
    assert_eq!(tree.nodes()[2].len(), 1);

    assert_eq!(tree.root(), Some(expected_root));
    assert_eq!(tree.nodes()[2][0], expected_root);

    assert_eq!(tree.nodes()[0][0], expected_leaf_1);
    assert_eq!(tree.nodes()[0][1], expected_leaf_2);
    assert_eq!(tree.nodes()[0][2], expected_leaf_3);
    assert_eq!(tree.nodes()[0][3], expected_leaf_4);

    assert_eq!(tree.nodes()[1][0], expected_mid_node1);
    assert_eq!(tree.nodes()[1][1], expected_mid_node2);
}

#[test]
fn get_merkle_proof_with_three_elements() {
    let mut tree = MerkleTree::new();

    let val1: i128 = 3;
    let val2: i128 = 4;
    let val3: i128 = 5;
    let mut elements: Vec<FiniteFieldElement> = Vec::new();

    elements.push(FiniteFieldElement::new(val1));
    elements.push(FiniteFieldElement::new(val2));
    elements.push(FiniteFieldElement::new(val3));
    tree.build(&elements);

    let expected_leaf_1 = hash(val1);
    let expected_leaf_2 = hash(val2);
    let expected_leaf_3 = hash(val3);
    let expected_leaf_4 = 0;

    let expected_mid_node1 = hash_two_inputs(expected_leaf_1, expected_leaf_2);
    let expected_mid_node2 = hash_two_inputs(expected_leaf_3, expected_leaf_4);

    let expected_root = hash_two_inputs(expected_mid_node1, expected_mid_node2);

    {
        let proof = tree.get_merkle_proof(0).unwrap();
        let expected_proof = vec![expected_leaf_2, expected_mid_node2, expected_root];

        assert_eq!(proof.len(), expected_proof.len());

        for (elem1, elem2) in proof.iter().zip(expected_proof.iter()) {
            assert_eq!(elem1, elem2);
        }
    }
    {
        let proof = tree.get_merkle_proof(1).unwrap();
        let expected_proof = vec![expected_leaf_1, expected_mid_node2, expected_root];

        assert_eq!(proof.len(), expected_proof.len());

        for (elem1, elem2) in proof.iter().zip(expected_proof.iter()) {
            assert_eq!(elem1, elem2);
        }
    }
    {
        let proof = tree.get_merkle_proof(2).unwrap();
        let expected_proof = vec![expected_leaf_4, expected_mid_node1, expected_root];

        assert_eq!(proof.len(), expected_proof.len());

        for (elem1, elem2) in proof.iter().zip(expected_proof.iter()) {
            assert_eq!(elem1, elem2);
        }
    }
    {
        let proof = tree.get_merkle_proof(3).unwrap();
        let expected_proof = vec![expected_leaf_3, expected_mid_node1, expected_root];

        assert_eq!(proof.len(), expected_proof.len());

        for (elem1, elem2) in proof.iter().zip(expected_proof.iter()) {
            assert_eq!(elem1, elem2);
        }
    }
}

#[test]
fn test_padding_to_power_of_two() {
    let mut tree = MerkleTree::new();

    let elements: Vec<FiniteFieldElement> =
        (1..=5).map(|i| FiniteFieldElement::new(i)).collect();

    tree.build(&elements);

    assert_eq!(tree.nodes().len(), 4);
    assert_eq!(tree.nodes()[0].len(), 8);
    assert_eq!(tree.nodes()[1].len(), 4);
    assert_eq!(tree.nodes()[2].len(), 2);
    assert_eq!(tree.nodes()[3].len(), 1);

    for i in 0..5 {
        let expected_hash = hash(i as i128 + 1);
        assert_eq!(tree.nodes()[0][i], expected_hash);
    }

    for i in 5..8 {
        assert_eq!(tree.nodes()[0][i], 0);
    }
}

#[test]
fn test_commutative_hashing() {
    let hash1 = hash_two_inputs(1, 2);
    let hash2 = hash_two_inputs(2, 1);

    assert_eq!(hash1, hash2);

    let mut tree1 = MerkleTree::new();
    let mut tree2 = MerkleTree::new();

    let elements1: Vec<FiniteFieldElement> =
        vec![FiniteFieldElement::new(1), FiniteFieldElement::new(2)];

    let elements2: Vec<FiniteFieldElement> =
        vec![FiniteFieldElement::new(2), FiniteFieldElement::new(1)];

    tree1.build(&elements1);
    tree2.build(&elements2);

    assert_eq!(tree1.root(), tree2.root());
}

#[test]
fn test_merkle_proof_verification() {
    let mut tree = MerkleTree::new();

    let elements: Vec<FiniteFieldElement> =
        (1..=4).map(|i| FiniteFieldElement::new(i)).collect();

    tree.build(&elements);

    let proof = tree.get_merkle_proof(0).unwrap();
    let leaf_hash = hash(1);

    let mut current_hash = leaf_hash;
    for sibling in proof.iter().take(proof.len().saturating_sub(1)) {
        current_hash = hash_two_inputs(current_hash, *sibling);
    }

    assert_eq!(current_hash, tree.root().unwrap());
}

#[test]
fn test_large_tree_current_padding() {
    let mut tree = MerkleTree::new();

    let elements: Vec<FiniteFieldElement> =
        (1..=13).map(|i| FiniteFieldElement::new(i)).collect();

    tree.build(&elements);

    assert_eq!(tree.nodes().len(), 5);
    assert_eq!(tree.nodes()[0].len(), 16);
    assert_eq!(tree.nodes()[1].len(), 8);
    assert_eq!(tree.nodes()[2].len(), 4);
    assert_eq!(tree.nodes()[3].len(), 2);
    assert_eq!(tree.nodes()[4].len(), 1);

    for i in 0..13 {
        let expected_hash = hash(i as i128 + 1);
        assert_eq!(tree.nodes()[0][i], expected_hash);
    }

    assert_eq!(tree.nodes()[0][13], 0);
    assert_eq!(tree.nodes()[0][14], 0);
    assert_eq!(tree.nodes()[0][15], 0);
}

#[test]
fn test_large_tree_proper_padding() {
    let mut tree = MerkleTree::new();

    let elements: Vec<FiniteFieldElement> =
        (1..=13).map(|i| FiniteFieldElement::new(i)).collect();

    tree.build(&elements);

    assert_eq!(tree.nodes().len(), 5);
    assert_eq!(tree.nodes()[0].len(), 16);
    assert_eq!(tree.nodes()[1].len(), 8);
    assert_eq!(tree.nodes()[2].len(), 4);
    assert_eq!(tree.nodes()[3].len(), 2);
    assert_eq!(tree.nodes()[4].len(), 1);

    for i in 0..13 {
        let expected_hash = hash(i as i128 + 1);
        assert_eq!(tree.nodes()[0][i], expected_hash);
    }

    for i in 13..16 {
        assert_eq!(tree.nodes()[0][i], 0);
    }
}

#[test]
fn four_leaves_every_proof_reconstructs_the_root() {
    let mut tree = MerkleTree::new();
    let elements: Vec<FiniteFieldElement> =
        (1..=4).map(|i| FiniteFieldElement::new(i)).collect();
    tree.build(&elements);
    let root = tree.root().unwrap();
    assert_eq!(tree.leaf_count(), 4);
    for i in 0..4 {
        let proof = tree.get_merkle_proof(i).unwrap();
        assert_eq!(proof.len(), 3);
        assert_eq!(*proof.last().unwrap(), root);
        assert_eq!(reconstruct_root(hash(i as i128 + 1), &proof), root);
    }

    let mut changed = MerkleTree::new();
    let other: Vec<FiniteFieldElement> = [1, 2, 30, 4]
        .iter()
        .map(|&v| FiniteFieldElement::new(v))
        .collect();
    changed.build(&other);
    assert_ne!(changed.root().unwrap(), root);
}

#[test]
fn every_leaf_of_a_padded_tree_has_a_proof_that_verifies() {
    let mut tree = MerkleTree::new();
    let hashes: Vec<i128> = (0..11).map(|i| hash(i * 31 + 7)).collect();
    tree.build_from_hashes(&hashes);
    let root = tree.root().unwrap();
    assert_eq!(tree.leaf_count(), 16);
    for i in 0..16 {
        let leaf = if i < hashes.len() { hashes[i] } else { 0 };
        let proof = tree.get_merkle_proof(i).unwrap();
        assert_eq!(proof.len(), 5);
        assert_eq!(reconstruct_root(leaf, &proof), root);
    }
}

#[test]
fn proof_of_an_index_out_of_range_is_not_found() {
    let mut tree = MerkleTree::new();
    let elements: Vec<FiniteFieldElement> =
        (1..=3).map(|i| FiniteFieldElement::new(i)).collect();
    tree.build(&elements);
    assert!(tree.get_merkle_proof(3).is_some());
    assert!(tree.get_merkle_proof(4).is_none());

    let mut empty = MerkleTree::new();
    empty.build(&[]);
    assert!(empty.get_merkle_proof(0).is_none());
    assert_eq!(empty.leaf_count(), 0);
}

#[test]
fn padded_leaves_are_the_elements_and_zeros() {
    let mut tree = MerkleTree::new();
    assert_eq!(tree.leaf_count(), 0);
    assert_eq!(tree.padded_leaves().len(), 0);
    let elements: Vec<FiniteFieldElement> =
        (1..=3).map(|i| FiniteFieldElement::new(i)).collect();
    tree.build(&elements);
    let leaves = tree.padded_leaves();
    assert_eq!(leaves.len(), 4);
    assert_eq!(leaves[0].value, 1);
    assert_eq!(leaves[2].value, 3);
    assert_eq!(leaves[3].value, 0);
}

#[test]
fn next_power_of_two_is_the_least_one() {
    assert_eq!(next_power_of_two(0), 1);
    assert_eq!(next_power_of_two(1), 1);
    assert_eq!(next_power_of_two(2), 2);
    assert_eq!(next_power_of_two(3), 4);
    assert_eq!(next_power_of_two(4), 4);
    assert_eq!(next_power_of_two(5), 8);
    assert_eq!(next_power_of_two(17), 32);
    assert_eq!(next_power_of_two(1024), 1024);
    assert_eq!(next_power_of_two(1025), 2048);
}

#[test]
fn node_hash_is_the_hash_of_the_sum_of_the_two_hashes() {
    let ha = hash(3);
    let hb = hash(4);
    assert_eq!(hash_two_inputs(3, 4), hash(ha.wrapping_add(hb)));
}
