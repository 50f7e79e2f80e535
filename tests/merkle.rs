use mktree::{build_tree, compute_root, generate_proof, hash_leaf, verify_proof};
use sha2::{Digest, Sha256};

fn sha_hex(bytes: &[u8]) -> String {
    format!("{:x}", Sha256::digest(bytes))
}

fn node(left: &str, right: &str) -> String {
    let mut joined = String::from(left);
    joined.push_str(right);
    sha_hex(joined.as_bytes())
}

fn strings(items: &[&str]) -> Vec<String> {
    items.iter().map(|s| s.to_string()).collect()
}

#[test]
fn hash_leaf_known_digests() {
    assert_eq!(
        hash_leaf(String::new()),
        "e3b0c44298fc1c149afbf4c8996fb92427ae41e4649b934ca495991b7852b855"
    );
    assert_eq!(
        hash_leaf("abc".to_string()),
        "ba7816bf8f01cfea414140de5dae2223b00361a396177a9cb410ff61f20015ad"
    );
    assert_eq!(hash_leaf("A".to_string()).len(), 64);
}

#[test]
fn hash_leaf_hashes_utf8_bytes() {
    let text = "ñandú";
    assert_eq!(hash_leaf(text.to_string()), sha_hex(text.as_bytes()));
}

#[test]
fn odd_layer_duplicates_last_node() {
    let leaves = strings(&["A", "B", "C"]);
    let hashed: Vec<String> = leaves.iter().map(|l| hash_leaf(l.clone())).collect();
    let ha = sha_hex(b"A");
    let hb = sha_hex(b"B");
    let hc = sha_hex(b"C");
    let layer1 = vec![node(&ha, &hb), node(&hc, &hc)];
    let root = node(&layer1[0], &layer1[1]);
    let tree = build_tree(hashed.clone());
    assert_eq!(tree.len(), 3);
    assert_eq!(tree[0], hashed);
    assert_eq!(tree[1], layer1);
    assert_eq!(tree[2], vec![root.clone()]);
    assert_eq!(compute_root(leaves), root);
}

#[test]
fn single_leaf_tree() {
    let leaves = strings(&["A"]);
    let ha = hash_leaf("A".to_string());
    assert_eq!(build_tree(vec![ha.clone()]), vec![vec![ha.clone()]]);
    assert_eq!(compute_root(leaves.clone()), ha);
    assert!(generate_proof(leaves, "A".to_string()).is_empty());
    assert!(verify_proof("A".to_string(), vec![], ha));
}

#[test]
fn empty_input() {
    assert!(build_tree(vec![]).is_empty());
    assert_eq!(compute_root(vec![]), "");
    assert!(generate_proof(vec![], "x".to_string()).is_empty());
}

#[test]
fn two_leaf_root() {
    let leaves = strings(&["a", "b"]);
    let expected = node(&hash_leaf("a".to_string()), &hash_leaf("b".to_string()));
    assert_eq!(compute_root(leaves), expected);
}

#[test]
fn root_is_top_of_built_tree() {
    for n in 1..12 {
        let leaves: Vec<String> = (0..n).map(|i| format!("item-{}", i)).collect();
        let hashed: Vec<String> = leaves.iter().map(|l| hash_leaf(l.clone())).collect();
        let tree = build_tree(hashed);
        let top = tree.last().unwrap();
        assert_eq!(top.len(), 1);
        assert_eq!(compute_root(leaves), top[0]);
    }
}

#[test]
fn every_leaf_proof_verifies() {
    for n in 1..12 {
        let leaves: Vec<String> = (0..n).map(|i| format!("leaf{}", i)).collect();
        let root = compute_root(leaves.clone());
        for leaf in &leaves {
            let path = generate_proof(leaves.clone(), leaf.clone());
            assert!(verify_proof(leaf.clone(), path, root.clone()));
        }
    }
}

#[test]
fn proof_for_duplicate_leaf_verifies() {
    let leaves = strings(&["x", "y", "x", "z", "y"]);
    let root = compute_root(leaves.clone());
    for leaf in ["x", "y", "z"] {
        let path = generate_proof(leaves.clone(), leaf.to_string());
        assert!(verify_proof(leaf.to_string(), path, root.clone()));
    }
}

#[test]
fn proof_steps_for_three_leaves() {
    let leaves = strings(&["A", "B", "C"]);
    let ha = hash_leaf("A".to_string());
    let hb = hash_leaf("B".to_string());
    let hc = hash_leaf("C".to_string());
    let ab = node(&ha, &hb);
    let cc = node(&hc, &hc);
    assert_eq!(
        generate_proof(leaves.clone(), "A".to_string()),
        vec![(hb.clone(), false), (cc.clone(), false)]
    );
    assert_eq!(
        generate_proof(leaves.clone(), "B".to_string()),
        vec![(ha, true), (cc, false)]
    );
    assert_eq!(
        generate_proof(leaves, "C".to_string()),
        vec![(hc, false), (ab, true)]
    );
}

#[test]
fn absent_target_gives_empty_proof() {
    let leaves = strings(&["A", "B", "C"]);
    assert!(generate_proof(leaves, "D".to_string()).is_empty());
}

#[test]
fn layer_counts_and_lengths() {
    let expected_layers = [(1usize, 1usize), (2, 2), (3, 3), (4, 3), (5, 4), (8, 4), (9, 5), (16, 5), (17, 6)];
    for (n, layers) in expected_layers {
        let hashed: Vec<String> = (0..n).map(|i| hash_leaf(i.to_string())).collect();
        let tree = build_tree(hashed);
        assert_eq!(tree.len(), layers);
        assert_eq!(tree[0].len(), n);
        for j in 1..tree.len() {
            assert_eq!(tree[j].len(), (tree[j - 1].len() + 1) / 2);
        }
        assert_eq!(tree.last().unwrap().len(), 1);
    }
}

#[test]
fn build_tree_keeps_given_strings() {
    let layer = strings(&["p", "q", "r", "s"]);
    let tree = build_tree(layer.clone());
    assert_eq!(tree[0], layer);
    assert_eq!(tree[1], vec![node("p", "q"), node("r", "s")]);
    assert_eq!(tree[2], vec![node(&tree[1][0], &tree[1][1])]);
}

#[test]
fn tampered_leaf_changes_root_and_fails_proof() {
    let leaves = strings(&["alpha", "beta", "gamma", "delta", "epsilon"]);
    let root = compute_root(leaves.clone());
    for i in 0..leaves.len() {
        let mut altered = leaves.clone();
        altered[i].push('!');
        assert_ne!(compute_root(altered.clone()), root);
        let path = generate_proof(leaves.clone(), leaves[i].clone());
        assert!(verify_proof(leaves[i].clone(), path.clone(), root.clone()));
        assert!(!verify_proof(altered[i].clone(), path, root.clone()));
    }
}

#[test]
fn verify_rejects_wrong_root_or_sibling() {
    let leaves = strings(&["a", "b", "c", "d"]);
    let root = compute_root(leaves.clone());
    let mut path = generate_proof(leaves.clone(), "c".to_string());
    assert!(!verify_proof("c".to_string(), path.clone(), hash_leaf("c".to_string())));
    path[0].1 = !path[0].1;
    assert!(!verify_proof("c".to_string(), path, root.clone()));
    assert!(!verify_proof("c".to_string(), vec![], root));
}

#[test]
fn verify_replays_left_and_right_siblings() {
    let leaf = "m".to_string();
    let hm = hash_leaf(leaf.clone());
    let s1 = "s1".to_string();
    let s2 = "s2".to_string();
    let expected = node(&s2, &node(&hm, &s1));
    assert!(verify_proof(leaf, vec![(s1, false), (s2, true)], expected));
}
