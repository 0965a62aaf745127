use merkle_commit::hashing::{leaf_bytes, leaf_hash, node_hash};
use merkle_commit::inclusion::{bytes_equal, verify_inclusion, ProofStep};
use merkle_commit::letters::{int_to_char, lettered_tree};
use merkle_commit::tree::MerkleTree;
use sha2::{Digest, Sha256};

fn sha(data: &[u8]) -> Vec<u8> {
    Sha256::digest(data).to_vec()
}

fn pair(left: &[u8], right: &[u8]) -> Vec<u8> {
    let mut data = left.to_vec();
    data.extend_from_slice(right);
    sha(&data)
}

fn build(entries: &[(i32, char)]) -> MerkleTree {
    let mut t = MerkleTree::new();
    for &(k, v) in entries {
        t.insert(k, v);
    }
    t
}

#[test]
fn empty_tree_has_no_root() {
    let t = MerkleTree::new();
    assert_eq!(t.root_hash(), None);
    assert_eq!(t.get(1), '_');
    assert!(t.get_path_to_root(1).is_empty());
}

#[test]
fn leaf_bytes_are_decimal_key_then_utf8_value() {
    assert_eq!(leaf_bytes(1, 'A'), b"1A".to_vec());
    assert_eq!(leaf_bytes(0, 'z'), b"0z".to_vec());
    assert_eq!(leaf_bytes(-45, 'Q'), b"-45Q".to_vec());
    assert_eq!(leaf_bytes(i32::MIN, 'A'), b"-2147483648A".to_vec());
    assert_eq!(leaf_bytes(i32::MAX, 'A'), b"2147483647A".to_vec());
    assert_eq!(leaf_bytes(7, '\u{e9}'), "7\u{e9}".as_bytes().to_vec());
    assert_eq!(leaf_bytes(7, '\u{20ac}'), "7\u{20ac}".as_bytes().to_vec());
    assert_eq!(leaf_bytes(7, '\u{1f600}'), "7\u{1f600}".as_bytes().to_vec());
}

#[test]
fn leaf_hash_is_sha256_of_text() {
    let h = leaf_hash(1, 'A');
    assert_eq!(h.len(), 32);
    assert_eq!(h, sha(b"1A"));
    assert_ne!(h, b"1A".to_vec());
}

#[test]
fn node_hash_is_sha256_of_left_then_right() {
    let l = leaf_hash(1, 'A');
    let r = leaf_hash(2, 'B');
    assert_eq!(node_hash(&l, &r), pair(&l, &r));
    assert_ne!(node_hash(&l, &r), node_hash(&r, &l));
}

#[test]
fn single_leaf_root_is_leaf_digest() {
    let t = build(&[(1, 'A')]);
    assert_eq!(t.root_hash(), Some(sha(b"1A")));
    assert_eq!(t.get_path_to_root(1), vec![sha(b"1A")]);
}

#[test]
fn two_leaves_root_combines_in_key_order() {
    let t = build(&[(2, 'B'), (1, 'A')]);
    let expected = pair(&sha(b"1A"), &sha(b"2B"));
    assert_eq!(t.root_hash(), Some(expected.clone()));
    assert_eq!(t.get_path_to_root(2), vec![sha(b"2B"), expected]);
}

#[test]
fn odd_leaf_is_promoted_without_rehashing() {
    let t = build(&[(1, 'A'), (2, 'B'), (3, 'C')]);
    let ab = pair(&sha(b"1A"), &sha(b"2B"));
    let root = pair(&ab, &sha(b"3C"));
    assert_eq!(t.root_hash(), Some(root.clone()));
    assert_eq!(t.get_path_to_root(3), vec![sha(b"3C"), root.clone()]);
    assert_eq!(t.get_path_to_root(1), vec![sha(b"1A"), ab, root]);
}

#[test]
fn missing_key_gives_sentinel() {
    let t = build(&[(1, 'A'), (2, 'B')]);
    assert_eq!(t.get(3), '_');
    assert_eq!(t.get(-1), '_');
    assert!(t.get_path_to_root(3).is_empty());
}

#[test]
fn insert_overwrites_value() {
    let mut t = build(&[(1, 'A'), (2, 'B')]);
    t.insert(1, 'Z');
    assert_eq!(t.get(1), 'Z');
    assert_eq!(t.get(2), 'B');
    let fresh = build(&[(2, 'B'), (1, 'Z')]);
    assert_eq!(t.root_hash(), fresh.root_hash());
}

#[test]
fn root_does_not_depend_on_insertion_order() {
    let a = build(&[(1, 'A'), (2, 'B'), (3, 'C'), (4, 'D'), (5, 'E')]);
    let b = build(&[(5, 'E'), (3, 'C'), (1, 'A'), (4, 'D'), (2, 'B')]);
    assert_eq!(a.root_hash(), b.root_hash());
    assert_eq!(a.get_path_to_root(4), b.get_path_to_root(4));
}

#[test]
fn changing_one_value_changes_root() {
    let a = build(&[(1, 'A'), (2, 'B'), (3, 'C'), (4, 'D'), (5, 'E')]);
    let b = build(&[(1, 'A'), (2, 'B'), (3, 'X'), (4, 'D'), (5, 'E')]);
    assert_ne!(a.root_hash(), b.root_hash());
}

#[test]
fn int_to_char_cycles_through_alphabet() {
    assert_eq!(int_to_char(1), 'A');
    assert_eq!(int_to_char(2), 'B');
    assert_eq!(int_to_char(26), 'Z');
    assert_eq!(int_to_char(27), 'A');
    assert_eq!(int_to_char(50), 'X');
    assert_eq!(int_to_char(102), 'X');
    assert_eq!(int_to_char(0), 'Z');
    assert_eq!(int_to_char(-25), 'A');
    assert_eq!(int_to_char(i32::MIN), 'B');
    assert_eq!(int_to_char(i32::MAX), 'W');
}

#[test]
fn hundred_keys_scenario() {
    let t = lettered_tree(100, 0);
    let again = lettered_tree(100, 0);
    let root = t.root_hash().unwrap();
    assert_eq!(again.root_hash(), Some(root.clone()));
    assert_eq!(t.get(50), 'X');
    assert_eq!(t.get(50), int_to_char(50));
    let path = t.get_path_to_root(50);
    assert_eq!(path.len(), 8);
    assert_eq!(path[0], sha(b"50X"));
    assert_eq!(path.last(), Some(&root));
    let last_path = t.get_path_to_root(100);
    assert_eq!(last_path.len(), 5);
    assert_eq!(last_path.last(), Some(&root));
    let mut manual = MerkleTree::new();
    for k in 1..101 {
        manual.insert(k, int_to_char(k));
    }
    assert_eq!(manual.root_hash(), Some(root));
}

#[test]
fn three_offset_trees_give_consecutive_letters() {
    let t0 = lettered_tree(100, 0);
    let t1 = lettered_tree(100, 1);
    let t2 = lettered_tree(100, 2);
    for k in 1..101 {
        let a = t0.get(k) as u8 - b'A';
        let b = t1.get(k) as u8 - b'A';
        let c = t2.get(k) as u8 - b'A';
        assert_eq!(b, (a + 1) % 26);
        assert_eq!(c, (a + 2) % 26);
    }
    let journal: String = [t0.get(25), t1.get(25), t2.get(25)].iter().collect();
    assert_eq!(journal, "YZA");
    assert_ne!(t0.root_hash(), t1.root_hash());
}

#[test]
fn lettered_tree_with_no_keys_is_empty() {
    let t = lettered_tree(0, 0);
    assert_eq!(t.root_hash(), None);
    assert_eq!(t.get(1), '_');
}

#[test]
fn node_listing_is_preorder_with_depths() {
    let t = build(&[(1, 'A'), (2, 'B'), (3, 'C')]);
    let ab = pair(&sha(b"1A"), &sha(b"2B"));
    let root = pair(&ab, &sha(b"3C"));
    let lines: Vec<(usize, Option<i32>, Option<char>, Vec<u8>)> = t
        .node_listing()
        .into_iter()
        .map(|l| (l.depth, l.key, l.value, l.hash))
        .collect();
    assert_eq!(
        lines,
        vec![
            (0, None, None, root),
            (1, None, None, ab),
            (2, Some(1), Some('A'), sha(b"1A")),
            (2, Some(2), Some('B'), sha(b"2B")),
            (1, Some(3), Some('C'), sha(b"3C")),
        ]
    );
    assert!(MerkleTree::new().node_listing().is_empty());
}

#[test]
fn inclusion_proof_lists_siblings_with_sides() {
    let t = build(&[(1, 'A'), (2, 'B'), (3, 'C')]);
    let ab = pair(&sha(b"1A"), &sha(b"2B"));
    let proof: Vec<(Vec<u8>, bool)> = t
        .get_inclusion_proof(2)
        .unwrap()
        .into_iter()
        .map(|s| (s.sibling, s.sibling_on_left))
        .collect();
    assert_eq!(proof, vec![(sha(b"1A"), true), (sha(b"3C"), false)]);
    let proof3: Vec<(Vec<u8>, bool)> = t
        .get_inclusion_proof(3)
        .unwrap()
        .into_iter()
        .map(|s| (s.sibling, s.sibling_on_left))
        .collect();
    assert_eq!(proof3, vec![(ab, true)]);
    assert!(t.get_inclusion_proof(4).is_none());
    let single = build(&[(9, 'Q')]);
    assert_eq!(single.get_inclusion_proof(9).map(|p| p.len()), Some(0));
}

#[test]
fn inclusion_proofs_verify_against_root() {
    let t = lettered_tree(100, 0);
    let root = t.root_hash().unwrap();
    for k in 1..101 {
        let proof = t.get_inclusion_proof(k).unwrap();
        assert!(verify_inclusion(&root, k, t.get(k), &proof));
    }
    let proof = t.get_inclusion_proof(50).unwrap();
    assert!(!verify_inclusion(&root, 50, 'A', &proof));
    assert!(!verify_inclusion(&root, 51, 'X', &proof));
    let other = lettered_tree(100, 1).root_hash().unwrap();
    assert!(!verify_inclusion(&other, 50, 'X', &proof));
    let mut tampered: Vec<ProofStep> = t.get_inclusion_proof(50).unwrap();
    tampered[0].sibling_on_left = !tampered[0].sibling_on_left;
    assert!(!verify_inclusion(&root, 50, 'X', &tampered));
}

#[test]
fn bytes_equal_compares_contents() {
    assert!(bytes_equal(&vec![1, 2, 3], &vec![1, 2, 3]));
    assert!(!bytes_equal(&vec![1, 2, 3], &vec![1, 2, 4]));
    assert!(!bytes_equal(&vec![1, 2], &vec![1, 2, 3]));
    assert!(bytes_equal(&vec![], &vec![]));
}

#[test]
fn digests_are_thirty_two_bytes() {
    let t = lettered_tree(37, 0);
    assert_eq!(t.root_hash().map(|r| r.len()), Some(32));
    for k in 1..38 {
        let path = t.get_path_to_root(k);
        assert_eq!(path[0], leaf_hash(k, t.get(k)));
        assert!(path.iter().all(|d| d.len() == 32));
        assert!(t.get_inclusion_proof(k).unwrap().iter().all(|s| s.sibling.len() == 32));
    }
}

#[test]
fn rebuild_keeps_root() {
    let mut t = lettered_tree(13, 4);
    let before = t.root_hash();
    t.rebuild();
    assert_eq!(t.root_hash(), before);
    assert_eq!(t.get(13), int_to_char(17));
    let mut empty = MerkleTree::new();
    empty.rebuild();
    assert_eq!(empty.root_hash(), None);
}

#[test]
fn last_insert_at_key_wins_over_later_other_keys() {
    let mut t = MerkleTree::new();
    t.insert(5, 'A');
    t.insert(5, 'B');
    t.insert(1, 'C');
    t.insert(9, 'D');
    t.insert(-3, 'E');
    t.insert(1, 'F');
    assert_eq!(t.get(5), 'B');
    assert_eq!(t.get(1), 'F');
    assert_eq!(t.get(9), 'D');
    assert_eq!(t.get(-3), 'E');
    assert_eq!(t.get(2), '_');
}
