use privacy_stablecoin::field::Fe;
use privacy_stablecoin::merkle::{
    deserialize_int_as_bool, deserialize_vec_fe, serialize_bool_as_int, serialize_vec_fe, MerkleTree,
    DEFAULT_TREE_HEIGHT,
};
use privacy_stablecoin::note::random_field_element;
use privacy_stablecoin::poseidon::poseidon_hash_2;

#[test]
fn test_empty_tree_root() {
    let tree = MerkleTree::new(4);
    let root = tree.root();
    // the empty tree's root is deterministic
    let tree2 = MerkleTree::new(4);
    assert_eq!(root, tree2.root());
}

#[test]
fn test_insert_and_verify_path() {
    let mut tree = MerkleTree::new(4);

    let leaf = random_field_element();
    let index = tree.insert(leaf);
    assert_eq!(index, 0);

    let root = tree.root();
    let path = tree.get_path(0);

    assert!(path.verify(&leaf, &root));
}

#[test]
fn empty_root_is_the_zero_chain() {
    let z0 = Fe::zero();
    let z1 = poseidon_hash_2([z0, z0]);
    let z2 = poseidon_hash_2([z1, z1]);
    let z3 = poseidon_hash_2([z2, z2]);
    assert_eq!(MerkleTree::new(3).root(), z3);
    assert_eq!(MerkleTree::new(0).root(), z0);
}

#[test]
fn root_of_two_leaves_by_hand() {
    let a = Fe::from_u64(7);
    let b = Fe::from_u64(9);
    let mut tree = MerkleTree::new(2);
    tree.insert(a);
    tree.insert(b);
    let z0 = Fe::zero();
    let z1 = poseidon_hash_2([z0, z0]);
    let left = poseidon_hash_2([a, b]);
    assert_eq!(tree.root(), poseidon_hash_2([left, z1]));
    let path = tree.get_path(1);
    assert_eq!(path.siblings, vec![a, z1]);
    assert_eq!(path.path_indices, vec![true, false]);
    assert_eq!(path.compute_root(&b), tree.root());
}

#[test]
fn every_leaf_path_verifies_and_wrong_leaf_fails() {
    let mut tree = MerkleTree::new(3);
    let leaves: Vec<Fe> = (1..=5u64).map(Fe::from_u64).collect();
    for l in &leaves {
        tree.insert(*l);
    }
    assert_eq!(tree.len(), 5);
    assert!(!tree.is_empty());
    let root = tree.root();
    for (i, l) in leaves.iter().enumerate() {
        assert!(tree.get_path(i).verify(l, &root));
        assert!(!tree.get_path(i).verify(&Fe::from_u64(100), &root));
    }
    // empty slots are proved members as zero leaves
    assert!(tree.get_path(6).verify(&Fe::zero(), &root));
}

#[test]
fn default_height_is_twenty() {
    assert_eq!(DEFAULT_TREE_HEIGHT, 20);
    let t = MerkleTree::default_height();
    assert!(t.is_empty());
    assert_eq!(t.len(), 0);
}

#[test]
fn path_bits_round_trip_through_integers() {
    let bits = vec![true, false, false, true];
    let ints = serialize_bool_as_int(&bits);
    assert_eq!(ints, vec![1u8, 0, 0, 1]);
    assert_eq!(deserialize_int_as_bool(&ints), bits);
    assert_eq!(deserialize_int_as_bool(&vec![2u8, 1]), vec![false, true]);
}

#[test]
fn field_vectors_as_decimal_text() {
    let v = vec![Fe::from_u64(3), Fe::from_u64(45)];
    let s = serialize_vec_fe(&v);
    assert_eq!(s, vec!["3".to_string(), "45".to_string()]);
    assert_eq!(deserialize_vec_fe(&s), Ok(v));
    assert!(deserialize_vec_fe(&vec!["1".to_string(), "x".to_string()]).is_err());
}
