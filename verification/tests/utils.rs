use merkle_rs::merkle_tree::{NodeOrder, ProofListItem};
use merkle_rs::utils::{closest_bigger_power_of_two, contains_hash, verify_merkle_proof};
use sha2::{Digest, Sha256};

fn sha(data: &[u8]) -> Vec<u8> {
    Sha256::digest(data).to_vec()
}

fn sha_pair(first: &[u8], second: &[u8]) -> Vec<u8> {
    let mut joined = first.to_vec();
    joined.extend_from_slice(second);
    sha(&joined)
}

#[test]
fn power_of_two_at_or_above() {
    assert_eq!(closest_bigger_power_of_two(0), 1);
    assert_eq!(closest_bigger_power_of_two(1), 1);
    assert_eq!(closest_bigger_power_of_two(2), 2);
    assert_eq!(closest_bigger_power_of_two(3), 4);
    assert_eq!(closest_bigger_power_of_two(4), 4);
    assert_eq!(closest_bigger_power_of_two(5), 8);
    assert_eq!(closest_bigger_power_of_two(8), 8);
    assert_eq!(closest_bigger_power_of_two(9), 16);
    assert_eq!(closest_bigger_power_of_two(1000), 1024);
    assert_eq!(closest_bigger_power_of_two(0x7fff_ffff), 0x8000_0000);
    assert_eq!(closest_bigger_power_of_two(0x8000_0000), 0x8000_0000);
    assert_eq!(closest_bigger_power_of_two(0x4000_0001), 0x8000_0000);
}

#[test]
fn contains_hash_finds_only_listed_digests() {
    let list = vec![
        ProofListItem::new(vec![1, 2, 3], Some(NodeOrder::Left)),
        ProofListItem::new(vec![4, 5, 6], None),
    ];
    assert!(contains_hash(&list, &vec![4, 5, 6]));
    assert!(contains_hash(&list, &vec![1, 2, 3]));
    assert!(!contains_hash(&list, &vec![1, 2]));
    assert!(!contains_hash(&Vec::new(), &vec![1, 2, 3]));
}

#[test]
fn short_lists_are_rejected() {
    let content = b"content".to_vec();
    let leaf = sha(&content);
    assert!(!verify_merkle_proof(Vec::new(), leaf.clone(), content.clone()));
    let single = vec![ProofListItem::new(leaf.clone(), Some(NodeOrder::Left))];
    assert!(!verify_merkle_proof(single, leaf, content));
}

#[test]
fn list_without_the_content_digest_is_rejected() {
    let left = sha(b"left");
    let right = sha(b"right");
    let root = sha_pair(&left, &right);
    let list = vec![
        ProofListItem::new(left.clone(), Some(NodeOrder::Left)),
        ProofListItem::new(right.clone(), Some(NodeOrder::Right)),
    ];
    assert!(verify_merkle_proof(list.clone(), root.clone(), b"left".to_vec()));
    assert!(verify_merkle_proof(list.clone(), root.clone(), b"right".to_vec()));
    assert!(!verify_merkle_proof(list, root, b"other".to_vec()));
}

#[test]
fn side_of_the_earlier_step_decides_the_order() {
    let a = sha(b"a");
    let b = sha(b"b");
    let earlier_left = vec![
        ProofListItem::new(a.clone(), Some(NodeOrder::Left)),
        ProofListItem::new(b.clone(), Some(NodeOrder::Left)),
    ];
    assert!(verify_merkle_proof(earlier_left.clone(), sha_pair(&a, &b), b"a".to_vec()));
    assert!(!verify_merkle_proof(earlier_left, sha_pair(&b, &a), b"a".to_vec()));
    let earlier_right = vec![
        ProofListItem::new(a.clone(), Some(NodeOrder::Right)),
        ProofListItem::new(b.clone(), Some(NodeOrder::Left)),
    ];
    assert!(verify_merkle_proof(earlier_right.clone(), sha_pair(&b, &a), b"a".to_vec()));
    assert!(!verify_merkle_proof(earlier_right, sha_pair(&a, &b), b"a".to_vec()));
}

#[test]
fn replay_runs_from_the_end_of_the_list() {
    let a = sha(b"a");
    let b = sha(b"b");
    let c = sha(b"c");
    let bc = sha_pair(&b, &c);
    let root = sha_pair(&bc, &a);
    let list = vec![
        ProofListItem::new(a.clone(), Some(NodeOrder::Right)),
        ProofListItem::new(b.clone(), Some(NodeOrder::Left)),
        ProofListItem::new(c.clone(), Some(NodeOrder::Right)),
    ];
    assert!(verify_merkle_proof(list.clone(), root.clone(), b"c".to_vec()));
    let mut reversed = list;
    reversed.reverse();
    assert!(!verify_merkle_proof(reversed, root, b"c".to_vec()));
}

#[test]
fn step_without_side_in_the_middle_is_rejected() {
    let a = sha(b"a");
    let b = sha(b"b");
    let list = vec![
        ProofListItem::new(a.clone(), None),
        ProofListItem::new(b.clone(), Some(NodeOrder::Right)),
    ];
    assert!(!verify_merkle_proof(list.clone(), sha_pair(&a, &b), b"a".to_vec()));
    assert!(!verify_merkle_proof(list, sha_pair(&b, &a), b"a".to_vec()));
}

#[test]
fn digests_of_any_length_are_replayed_as_they_are() {
    let content = b"x".to_vec();
    let leaf = sha(&content);
    let odd = vec![7u8; 5];
    let root = sha_pair(&odd, &leaf);
    let list = vec![
        ProofListItem::new(odd, Some(NodeOrder::Left)),
        ProofListItem::new(leaf, Some(NodeOrder::Right)),
    ];
    assert!(verify_merkle_proof(list, root, content));
}
