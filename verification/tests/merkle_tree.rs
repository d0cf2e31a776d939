use merkle_tree::hashing::hash;
use merkle_tree::merkle_tree::{MerkleError, MerkleTree};

fn blocks(xs: &[&str]) -> Vec<Vec<u8>> {
    xs.iter().map(|x| x.as_bytes().to_vec()).collect()
}

fn block(x: &str) -> Vec<u8> {
    x.as_bytes().to_vec()
}

#[test]
fn merkel_tree_not_power_2() {
    let merkle_tree = MerkleTree::new(&blocks(&["0", "1", "2", "3", "4", "5"])).unwrap();
    assert_eq!(merkle_tree.num_levels(), 4)
}

#[test]
fn merkel_tree_power_2() {
    let merkle_tree = MerkleTree::new(&blocks(&["0", "1", "2", "3"])).unwrap();
    assert_eq!(merkle_tree.num_levels(), 3)
}

#[test]
fn generate_proof_internal_not_power_test() {
    let merkle_tree = MerkleTree::new(&blocks(&["1", "2", "3", "4", "5"])).unwrap();

    let (_index, proof) = merkle_tree.generate_proof_internal(&block("5")).unwrap();
    let proof: Vec<usize> = proof.iter().map(|a| a.0).collect();

    assert_eq!(proof, [4, 2, 0]);
}

#[test]
fn generate_proof_internal_power_test() {
    let merkle_tree = MerkleTree::new(&blocks(&["0", "1", "2", "3", "4", "5", "6", "7"])).unwrap();

    let (_index, proof) = merkle_tree.generate_proof_internal(&block("5")).unwrap();
    let proof: Vec<usize> = proof.iter().map(|a| a.0).collect();

    assert_eq!(proof, [4, 3, 0]);
}

#[test]
fn verify_test() {
    let merkle_tree = MerkleTree::new(&blocks(&["1", "2", "3", "4", "5"])).unwrap();

    let (index, proof) = merkle_tree.generate_proof_internal(&block("5")).unwrap();
    let proof = proof.iter().map(|(_, value)| *value).collect();

    let root = merkle_tree.get_root();
    let is_valid = MerkleTree::verify(proof, &block("5"), index, root);
    assert!(is_valid);
}

#[test]
fn generate_new_tree() {
    let mut merkle_tree = MerkleTree::new(&blocks(&["1", "2", "3", "4", "5"])).unwrap();
    merkle_tree.add_element(&block("6"));

    let (_index, proof_pos) = merkle_tree.generate_proof_internal(&block("6")).unwrap();
    let proof_pos: Vec<usize> = proof_pos.iter().map(|(position, _)| *position).collect();

    let (index, proof_values) = merkle_tree.generate_proof_internal(&block("6")).unwrap();
    let proof_values = proof_values.iter().map(|(_, values)| *values).collect();

    assert_eq!(proof_pos, [4, 2, 0]);
    let root = merkle_tree.get_root();
    let is_valid = MerkleTree::verify(proof_values, &block("6"), index, root);

    assert!(is_valid);
}

#[test]
fn every_block_yields_a_valid_proof() {
    let names = ["0", "1", "2", "3", "4", "5"];
    let merkle_tree = MerkleTree::new(&blocks(&names)).unwrap();
    let root = merkle_tree.get_root();
    for name in names {
        let (index, proof) = merkle_tree.generate_proof(&block(name)).unwrap();
        assert!(MerkleTree::verify(proof, &block(name), index, root));
    }
}

#[test]
fn absent_block_yields_not_found() {
    let merkle_tree = MerkleTree::new(&blocks(&["1", "2", "3"])).unwrap();
    assert_eq!(
        merkle_tree.generate_proof(&block("9")).unwrap_err(),
        MerkleError::NotFoundError
    );
    assert_eq!(
        merkle_tree.generate_proof_internal(&block("9")).unwrap_err(),
        MerkleError::NotFoundError
    );
}

#[test]
fn empty_input_is_refused() {
    let no_blocks: Vec<Vec<u8>> = Vec::new();
    assert_eq!(
        MerkleTree::new(&no_blocks).unwrap_err(),
        MerkleError::EmptyInputError
    );
}

#[test]
fn single_block_tree_is_one_level() {
    let merkle_tree = MerkleTree::new(&blocks(&["a"])).unwrap();
    assert_eq!(merkle_tree.num_levels(), 1);

    let (index, proof) = merkle_tree.generate_proof(&block("a")).unwrap();
    assert_eq!(index, 0);
    assert!(proof.is_empty());

    let root = merkle_tree.get_root();
    assert!(MerkleTree::verify(proof, &block("a"), index, root));
}

#[test]
fn same_blocks_same_root() {
    let a = MerkleTree::new(&blocks(&["1", "2", "3", "4", "5"])).unwrap();
    let b = MerkleTree::new(&blocks(&["1", "2", "3", "4", "5"])).unwrap();
    assert_eq!(a.get_root(), b.get_root());
}

#[test]
fn reordered_blocks_different_root() {
    let a = MerkleTree::new(&blocks(&["1", "2", "3", "4"])).unwrap();
    let b = MerkleTree::new(&blocks(&["2", "1", "3", "4"])).unwrap();
    assert_ne!(a.get_root(), b.get_root());
}

#[test]
fn append_changes_root_and_new_block_verifies() {
    let mut merkle_tree = MerkleTree::new(&blocks(&["1", "2", "3", "4", "5"])).unwrap();
    let old_root = merkle_tree.get_root();

    merkle_tree.add_element(&block("6"));
    let new_root = merkle_tree.get_root();
    assert_ne!(old_root, new_root);

    let (index, proof) = merkle_tree.generate_proof(&block("6")).unwrap();
    assert!(MerkleTree::verify(proof, &block("6"), index, new_root));
}

#[test]
fn tampered_proof_byte_is_rejected() {
    let merkle_tree = MerkleTree::new(&blocks(&["1", "2", "3", "4", "5"])).unwrap();
    let root = merkle_tree.get_root();
    let (index, proof) = merkle_tree.generate_proof(&block("3")).unwrap();

    for entry in 0..proof.len() {
        for byte in 0..32 {
            let mut tampered = proof.clone();
            tampered[entry][byte] ^= 0x01;
            assert!(!MerkleTree::verify(tampered, &block("3"), index, root));
        }
    }
}

#[test]
fn wrong_index_is_rejected() {
    let merkle_tree = MerkleTree::new(&blocks(&["1", "2", "3", "4", "5"])).unwrap();
    let root = merkle_tree.get_root();
    let (index, proof) = merkle_tree.generate_proof(&block("3")).unwrap();

    assert!(!MerkleTree::verify(proof.clone(), &block("3"), index + 1, root));
    assert!(!MerkleTree::verify(proof, &block("4"), index, root));
}

#[test]
fn root_of_two_equal_blocks_is_the_joint_hash_of_the_leaf() {
    let leaf = MerkleTree::new(&blocks(&["x"])).unwrap().get_root();
    let two = MerkleTree::new(&blocks(&["x", "x"])).unwrap().get_root();

    assert_eq!(two, hash(&[leaf, leaf]));
    assert_ne!(two, leaf);
}
