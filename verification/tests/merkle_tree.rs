use merkle_tree::{MerkleError, MerkleTree, Node};
use sha256::digest;

/// Creates a Merkle Tree node by node (tree_by_hand) from a vector of strings and compares
/// it to a Merkle Tree created with the constructor
#[test]
fn merkle_tree_is_created_correctly() {
    let elements = vec![
        String::from("A"),
        String::from("B"),
        String::from("C"),
        String::from("D"),
    ];

    let leaf_node_0 = Node {
        hash: digest(elements[0].clone()),
        height: 0,
        left: None,
        right: None,
    };
    let leaf_node_1 = Node {
        hash: digest(elements[1].clone()),
        height: 0,
        left: None,
        right: None,
    };
    let leaf_node_2 = Node {
        hash: digest(elements[2].clone()),
        height: 0,
        left: None,
        right: None,
    };
    let leaf_node_3 = Node {
        hash: digest(elements[3].clone()),
        height: 0,
        left: None,
        right: None,
    };

    let node01 = Node {
        hash: digest(leaf_node_0.hash.clone() + &leaf_node_1.hash),
        height: 1,
        left: Some(Box::new(leaf_node_0)),
        right: Some(Box::new(leaf_node_1)),
    };
    let node23 = Node {
        hash: digest(leaf_node_2.hash.clone() + &leaf_node_3.hash),
        height: 1,
        left: Some(Box::new(leaf_node_2)),
        right: Some(Box::new(leaf_node_3)),
    };
    let root = Node {
        hash: digest(node01.hash.clone() + &node23.hash),
        height: 2,
        left: Some(Box::new(node01)),
        right: Some(Box::new(node23)),
    };

    let tree_by_hand = MerkleTree { root: root };

    let tree = MerkleTree::new(elements).unwrap();

    assert_eq!(tree_by_hand, tree);
}

#[test]
fn single_leaf_has_height_zero_and_element_digest() {
    let tree = MerkleTree::new(vec![String::from("X")]).unwrap();
    assert_eq!(tree.root.height, 0);
    assert_eq!(tree.root.hash, digest("X"));
    assert!(tree.root.left.is_none());
    assert!(tree.root.right.is_none());
}

#[test]
fn single_leaf_known_digest() {
    // The SHA-256 digest of "hello", hex-encoded.
    let tree = MerkleTree::new(vec![String::from("hello")]).unwrap();
    assert_eq!(
        tree.root_hash(),
        "2cf24dba5fb0a30e26e83b2ac5b9e29e1b161e5c1fa7425e73043362938b9824"
    );
}

#[test]
fn two_leaves_hash_concatenation_of_digests() {
    let tree = MerkleTree::new(vec![String::from("A"), String::from("B")]).unwrap();
    assert_eq!(tree.root.height, 1);
    assert_eq!(tree.root.hash, digest(digest("A") + &digest("B")));
}

#[test]
fn four_leaves_worked_example() {
    let tree = MerkleTree::new(vec![
        String::from("A"),
        String::from("B"),
        String::from("C"),
        String::from("D"),
    ])
    .unwrap();
    let expected = digest(
        digest(digest("A") + &digest("B")) + &digest(digest("C") + &digest("D")),
    );
    assert_eq!(tree.root.height, 2);
    assert_eq!(tree.root_hash(), &expected);
}

#[test]
fn empty_input_fails() {
    let result = MerkleTree::new(Vec::new());
    assert_eq!(result.unwrap_err(), MerkleError::EmptyInput);
}

#[test]
fn odd_input_fails() {
    let result = MerkleTree::new(vec![
        String::from("A"),
        String::from("B"),
        String::from("C"),
    ]);
    assert_eq!(result.unwrap_err(), MerkleError::InvalidInputSize);
}

#[test]
fn six_leaves_fail_on_second_level() {
    let elements: Vec<String> = (0..6).map(|i| format!("e{}", i)).collect();
    let result = MerkleTree::new(elements);
    assert_eq!(result.unwrap_err(), MerkleError::InvalidInputSize);
}

#[test]
fn building_twice_is_deterministic() {
    let elements = vec![
        String::from("A"),
        String::from("B"),
        String::from("C"),
        String::from("D"),
    ];
    let first = MerkleTree::new(elements.clone()).unwrap();
    let second = MerkleTree::new(elements).unwrap();
    assert_eq!(first.root_hash(), second.root_hash());
    assert_eq!(first, second);
}

#[test]
fn reversing_the_input_changes_the_root() {
    let forward = MerkleTree::new(vec![String::from("A"), String::from("B")]).unwrap();
    let backward = MerkleTree::new(vec![String::from("B"), String::from("A")]).unwrap();
    assert_ne!(forward.root_hash(), backward.root_hash());
}

#[test]
fn eight_leaves_have_height_three() {
    let elements: Vec<String> = (0..8).map(|i| format!("e{}", i)).collect();
    let tree = MerkleTree::new(elements).unwrap();
    assert_eq!(tree.root.height, 3);
}
