use merkle_rs::file_map::FileMap;
use merkle_rs::merkle_tree::{MerkleTree, NodeOrder};
use merkle_rs::utils;
use sha2::{Digest, Sha256};

fn numbered_files(prefix: &str) -> FileMap {
    let mut files = FileMap::new();
    for i in 1..=8 {
        let file_name = format!("file{}.txt", i);
        let file_content = format!("{}File {} contents", prefix, i).into_bytes();
        files.insert(file_name, file_content).unwrap();
    }
    files
}

fn setup_test() -> (MerkleTree, FileMap) {
    let files = numbered_files("");
    let merkle_tree = MerkleTree::new(&files).unwrap();
    (merkle_tree, files)
}

#[test]
fn should_find_left_target_relative_to_node() {
    let (merkle_tree, files) = setup_test();

    let target_hash = Sha256::digest(files.get("file8.txt").unwrap()).to_vec();

    let result = merkle_tree.find_target_relative_to_node(&merkle_tree.root.clone(), &target_hash);

    assert_eq!(result, Some(NodeOrder::Left));
}

#[test]
fn should_find_right_target_relative_to_node() {
    let (merkle_tree, files) = setup_test();

    let target_hash = Sha256::digest(files.get("file3.txt").unwrap()).to_vec();

    let result = merkle_tree.find_target_relative_to_node(&merkle_tree.root.clone(), &target_hash);

    assert_eq!(result, Some(NodeOrder::Right));
}

#[test]
fn should_not_find_target_if_not_exist() {
    let (merkle_tree, files) = setup_test();

    let target_hash = Sha256::digest(files.get("file8.txt").unwrap()).to_vec();

    let result = merkle_tree
        .find_target_relative_to_node(&merkle_tree.root.clone().right.unwrap(), &target_hash);

    assert_eq!(result, None);
}

#[test]
fn should_accept_correct_proof() {
    let (merkle_tree, files) = setup_test();

    match merkle_tree.generate_merkle_proof("file1.txt", &files) {
        Some(proof_list) => {
            assert!(utils::verify_merkle_proof(
                proof_list,
                merkle_tree.get_root_hash(),
                files.get("file1.txt").unwrap().clone()
            ));
        }
        None => {
            assert!(false);
        }
    }
}

#[test]
fn should_reject_invalid_proof() {
    let (merkle_tree, _files) = setup_test();

    let mut modified_files = FileMap::new();
    for (name, content) in [
        ("file1.txt", "Modified File 1 contents"),
        ("file2.txt", "Modified File 2 contents"),
        ("file3.txt", "Modified File 3 contents"),
        ("file4.txt", "Modified File 4 contents"),
        ("file5.txt", "Modified File 5 contents"),
        ("file6.txt", "Modified File 6 contents"),
        ("file7.txt", "Modified File 7 contents"),
        ("file8.txt", "Modified File 8 contents"),
    ] {
        modified_files.insert(name.to_string(), content.as_bytes().to_vec()).unwrap();
    }

    let modified_merkle_tree = MerkleTree::new(&modified_files).unwrap();

    match modified_merkle_tree.generate_merkle_proof("file1.txt", &modified_files) {
        Some(proof_list) => {
            assert!(!utils::verify_merkle_proof(
                proof_list,
                merkle_tree.get_root_hash(),
                modified_files.get("file1.txt").unwrap().clone()
            ));
        }
        None => {
            assert!(false);
        }
    }
}

fn sha(data: &[u8]) -> Vec<u8> {
    Sha256::digest(data).to_vec()
}

fn sha_pair(first: &[u8], second: &[u8]) -> Vec<u8> {
    let mut joined = first.to_vec();
    joined.extend_from_slice(second);
    sha(&joined)
}

fn files_of(pairs: &[(&str, &[u8])]) -> FileMap {
    let mut files = FileMap::new();
    for (name, content) in pairs {
        files.insert(name.to_string(), content.to_vec()).unwrap();
    }
    files
}

#[test]
fn building_twice_gives_the_same_root() {
    let first = MerkleTree::new(&numbered_files("")).unwrap();
    let second = MerkleTree::new(&numbered_files("")).unwrap();
    assert_eq!(first.get_root_hash(), second.get_root_hash());
    assert_eq!(first.get_root_hash().len(), 32);
}

#[test]
fn empty_snapshot_builds_no_tree() {
    let files = FileMap::new();
    assert_eq!(MerkleTree::new(&files).err(), Some(merkle_rs::merkle_tree::MerkleError::EmptyInput));
}

#[test]
fn single_file_is_its_own_root_and_has_no_proof() {
    let files = files_of(&[("only.txt", b"alone")]);
    let tree = MerkleTree::new(&files).unwrap();
    assert_eq!(tree.get_root_hash(), sha(b"alone"));
    assert!(tree.root.left.is_none());
    assert!(tree.root.right.is_none());
    assert!(tree.generate_merkle_proof("only.txt", &files).is_none());
}

#[test]
fn two_files_pair_the_later_name_first() {
    let files = files_of(&[("a", b"first"), ("b", b"second")]);
    let tree = MerkleTree::new(&files).unwrap();
    assert_eq!(tree.get_root_hash(), sha_pair(&sha(b"second"), &sha(b"first")));
    assert_eq!(tree.root.left.as_ref().unwrap().hash, sha(b"second"));
    assert_eq!(tree.root.right.as_ref().unwrap().hash, sha(b"first"));
}

#[test]
fn leaves_follow_the_order_of_names_not_of_insertion() {
    let forward = files_of(&[("a", b"first"), ("b", b"second"), ("c", b"third")]);
    let backward = files_of(&[("c", b"third"), ("a", b"first"), ("b", b"second")]);
    assert_eq!(
        MerkleTree::new(&forward).unwrap().get_root_hash(),
        MerkleTree::new(&backward).unwrap().get_root_hash()
    );
}

#[test]
fn three_files_are_padded_with_the_last_leaf() {
    let files = files_of(&[("a", b"one"), ("b", b"two"), ("c", b"three")]);
    let tree = MerkleTree::new(&files).unwrap();
    let low = sha_pair(&sha(b"two"), &sha(b"one"));
    let high = sha_pair(&sha(b"three"), &sha(b"three"));
    assert_eq!(tree.get_root_hash(), sha_pair(&low, &high));

    let repeated = files_of(&[("a", b"one"), ("b", b"two"), ("c", b"three"), ("d", b"three")]);
    assert_eq!(MerkleTree::new(&repeated).unwrap().get_root_hash(), tree.get_root_hash());
}

#[test]
fn five_files_are_padded_to_eight() {
    let files = files_of(&[("a", b"1"), ("b", b"2"), ("c", b"3"), ("d", b"4"), ("e", b"5")]);
    let tree = MerkleTree::new(&files).unwrap();
    let l: Vec<Vec<u8>> = [b"1", b"2", b"3", b"4", b"5"].iter().map(|c| sha(&c[..])).collect();
    let n55 = sha_pair(&l[4], &l[4]);
    let n43 = sha_pair(&l[3], &l[2]);
    let n21 = sha_pair(&l[1], &l[0]);
    let low = sha_pair(&n21, &n43);
    let high = sha_pair(&n55, &n55);
    assert_eq!(tree.get_root_hash(), sha_pair(&high, &low));
}

#[test]
fn proof_of_first_file_lists_siblings_from_the_root_down() {
    let (tree, files) = setup_test();
    let l: Vec<Vec<u8>> =
        (1..=8).map(|i| sha(format!("File {} contents", i).as_bytes())).collect();
    let n43 = sha_pair(&l[3], &l[2]);
    let n65 = sha_pair(&l[5], &l[4]);
    let n87 = sha_pair(&l[7], &l[6]);
    let n6587 = sha_pair(&n65, &n87);
    let proof = tree.generate_merkle_proof("file1.txt", &files).unwrap();
    assert_eq!(proof.len(), 4);
    assert_eq!(proof[0].hash, n6587);
    assert_eq!(proof[0].order, Some(NodeOrder::Left));
    assert_eq!(proof[1].hash, n43);
    assert_eq!(proof[1].order, Some(NodeOrder::Right));
    assert_eq!(proof[2].hash, l[0]);
    assert_eq!(proof[2].order, Some(NodeOrder::Right));
    assert_eq!(proof[3].hash, l[1]);
    assert_eq!(proof[3].order, Some(NodeOrder::Left));
}

#[test]
fn every_file_round_trips() {
    for count in 2..=9 {
        let mut files = FileMap::new();
        for i in 0..count {
            files.insert(format!("name{}", i), format!("content {}", i).into_bytes()).unwrap();
        }
        let tree = MerkleTree::new(&files).unwrap();
        for i in 0..count {
            let name = format!("name{}", i);
            let proof = tree.generate_merkle_proof(&name, &files).unwrap();
            assert!(utils::verify_merkle_proof(
                proof,
                tree.get_root_hash(),
                files.get(&name).unwrap().clone()
            ));
        }
    }
}

#[test]
fn absent_name_has_no_proof() {
    let (tree, files) = setup_test();
    assert!(tree.generate_merkle_proof("backup.db", &files).is_none());
}

#[test]
fn changed_content_changes_the_root() {
    let (tree, _) = setup_test();
    let mut files = numbered_files("");
    files.insert("file5.txt".to_string(), b"File 5 contentt".to_vec()).unwrap();
    let changed = MerkleTree::new(&files).unwrap();
    assert_ne!(tree.get_root_hash(), changed.get_root_hash());
}

#[test]
fn earlier_proof_fails_against_rebuilt_root() {
    let (tree, files) = setup_test();
    let proof = tree.generate_merkle_proof("file1.txt", &files).unwrap();
    assert!(utils::verify_merkle_proof(
        proof.clone(),
        tree.get_root_hash(),
        b"File 1 contents".to_vec()
    ));
    let rebuilt = MerkleTree::new(&numbered_files("Modified ")).unwrap();
    assert!(!utils::verify_merkle_proof(
        proof,
        rebuilt.get_root_hash(),
        b"File 1 contents".to_vec()
    ));
}

#[test]
fn early_match_puts_one_step_too_many_on_the_path() {
    let mut inner = sha(b"fourth");
    inner.extend_from_slice(&sha(b"third"));
    let files = files_of(&[("a", &inner), ("b", b"second"), ("c", b"third"), ("d", b"fourth")]);
    let tree = MerkleTree::new(&files).unwrap();
    assert_eq!(tree.root.right.as_ref().unwrap().hash, sha(&inner));
    let proof = tree.generate_merkle_proof("a", &files).unwrap();
    assert_eq!(proof.len(), 4);
    assert_eq!(proof[0].hash, tree.root.left.as_ref().unwrap().hash);
    assert_eq!(proof[0].order, Some(NodeOrder::Left));
    assert!(!utils::verify_merkle_proof(proof, tree.get_root_hash(), inner.clone()));
    let other = tree.generate_merkle_proof("b", &files).unwrap();
    assert!(utils::verify_merkle_proof(other, tree.get_root_hash(), b"second".to_vec()));
}

#[test]
fn digest_met_first_on_a_branch_ends_the_path_there() {
    let mut inner = sha(b"second");
    inner.extend_from_slice(&sha(b"first"));
    let files = files_of(&[("a", b"first"), ("b", b"second"), ("c", &inner), ("d", b"fourth")]);
    let tree = MerkleTree::new(&files).unwrap();
    let proof = tree.generate_merkle_proof("c", &files).unwrap();
    assert_eq!(proof.len(), 2);
    assert_eq!(proof[0].hash, tree.root.left.as_ref().unwrap().hash);
    assert_eq!(proof[1].hash, tree.root.right.as_ref().unwrap().hash);
    assert!(utils::verify_merkle_proof(proof, tree.get_root_hash(), inner.clone()));
}

#[test]
fn combine_hashes_left_before_right_and_copies_both() {
    let (tree, _) = setup_test();
    let left = tree.root.left.as_ref().unwrap();
    let right = tree.root.right.as_ref().unwrap();
    let parent = merkle_rs::merkle_tree::MerkleNode::combine(left, right);
    assert_eq!(parent.hash, tree.root.hash);
    assert_eq!(parent.left.as_ref().unwrap().hash, left.hash);
    assert_eq!(parent.right.as_ref().unwrap().hash, right.hash);
    assert_eq!(
        parent.left.as_ref().unwrap().left.as_ref().unwrap().hash,
        left.left.as_ref().unwrap().hash
    );
}

#[test]
fn leaf_carries_the_sha256_of_its_content() {
    let leaf = merkle_rs::merkle_tree::MerkleNode::new(&b"abc".to_vec());
    assert_eq!(
        hex::encode(&leaf.hash),
        "ba7816bf8f01cfea414140de5dae2223b00361a396177a9cb410ff61f20015ad"
    );
    assert!(leaf.left.is_none() && leaf.right.is_none());
}

#[test]
fn subtree_search_looks_at_every_node() {
    let (tree, _) = setup_test();
    let root_hash = tree.get_root_hash();
    let whole = Some(Box::new(tree.root.clone()));
    assert!(MerkleTree::is_node_in_subtree(&whole, &root_hash));
    assert!(MerkleTree::is_node_in_subtree(&whole, &sha(b"File 4 contents")));
    assert!(!MerkleTree::is_node_in_subtree(&whole, &sha(b"File 9 contents")));
    assert!(!MerkleTree::is_node_in_subtree(&None, &root_hash));
    assert_eq!(tree.find_target_relative_to_node(&tree.root, &root_hash), None);
}

fn leaf(byte: u8) -> merkle_rs::merkle_tree::MerkleNode {
    merkle_rs::merkle_tree::MerkleNode { hash: vec![byte], left: None, right: None }
}

fn branch(
    byte: u8,
    left: merkle_rs::merkle_tree::MerkleNode,
    right: merkle_rs::merkle_tree::MerkleNode,
) -> merkle_rs::merkle_tree::MerkleNode {
    merkle_rs::merkle_tree::MerkleNode {
        hash: vec![byte],
        left: Some(Box::new(left)),
        right: Some(Box::new(right)),
    }
}

fn steps(list: &[merkle_rs::merkle_tree::ProofListItem]) -> Vec<(Vec<u8>, Option<NodeOrder>)> {
    list.iter().map(|item| (item.hash.clone(), item.order)).collect()
}

#[test]
fn audit_path_walks_a_given_tree() {
    let tree = MerkleTree {
        root: branch(9, branch(7, leaf(1), leaf(2)), branch(8, leaf(3), leaf(4))),
    };
    assert_eq!(
        steps(&tree.audit_path(&vec![3])),
        vec![
            (vec![7], Some(NodeOrder::Left)),
            (vec![3], Some(NodeOrder::Left)),
            (vec![4], Some(NodeOrder::Right)),
        ]
    );
    assert_eq!(
        steps(&tree.audit_path(&vec![2])),
        vec![
            (vec![8], Some(NodeOrder::Right)),
            (vec![2], Some(NodeOrder::Right)),
            (vec![1], Some(NodeOrder::Left)),
        ]
    );
    assert_eq!(
        steps(&tree.audit_path(&vec![7])),
        vec![(vec![7], Some(NodeOrder::Left)), (vec![8], Some(NodeOrder::Right))]
    );
    assert!(tree.audit_path(&vec![9]).is_empty());
    assert!(tree.audit_path(&vec![5]).is_empty());
}

#[test]
fn audit_path_prefers_the_left_subtree_among_equal_digests() {
    let tree = MerkleTree {
        root: branch(9, branch(7, leaf(1), leaf(5)), branch(8, leaf(5), leaf(4))),
    };
    assert_eq!(tree.find_target_relative_to_node(&tree.root, &vec![5]), Some(NodeOrder::Left));
    assert_eq!(
        steps(&tree.audit_path(&vec![5])),
        vec![
            (vec![8], Some(NodeOrder::Right)),
            (vec![5], Some(NodeOrder::Right)),
            (vec![1], Some(NodeOrder::Left)),
        ]
    );
}

#[test]
fn audit_path_ends_at_a_node_that_lacks_a_child() {
    let mut lone = branch(9, leaf(1), leaf(2));
    lone.right = None;
    let tree = MerkleTree { root: lone };
    assert_eq!(tree.find_target_relative_to_node(&tree.root, &vec![1]), Some(NodeOrder::Left));
    assert!(tree.audit_path(&vec![1]).is_empty());
}

#[test]
fn clones_keep_every_digest() {
    let tree = MerkleTree {
        root: branch(9, branch(7, leaf(1), leaf(2)), branch(8, leaf(3), leaf(4))),
    };
    let copy = tree.clone();
    assert_eq!(copy.root.hash, vec![9]);
    assert_eq!(copy.root.left.as_ref().unwrap().right.as_ref().unwrap().hash, vec![2]);
    assert_eq!(copy.root.right.as_ref().unwrap().left.as_ref().unwrap().hash, vec![3]);
    let item = merkle_rs::merkle_tree::ProofListItem::new(vec![1, 2], Some(NodeOrder::Right));
    let twin = item.clone();
    assert_eq!(twin.hash, vec![1, 2]);
    assert_eq!(twin.order, Some(NodeOrder::Right));
}
