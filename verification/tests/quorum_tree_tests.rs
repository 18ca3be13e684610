use std::collections::BTreeSet;
use std::collections::HashSet;

use quorum_set::CanonicalId;
use quorum_set::Node;
use quorum_set::QuorumSet;
use quorum_set::QuorumTree;
use quorum_set::QuorumTreeError;

fn id(i: u64) -> Node<u64> {
    Node::Id(i)
}

fn set(quorum_size: u64, nodes: &[u64]) -> Node<u64> {
    Node::Subtree(QuorumTree::new(quorum_size, nodes.iter().copied().map(id).collect()).unwrap())
}

fn qset(quorum_size: u64, nodes: &[u64]) -> QuorumTree<u64> {
    QuorumTree::new(quorum_size, nodes.iter().copied().map(id).collect()).unwrap()
}

fn raft_config(nodes: &[u64]) -> Node<u64> {
    let majority = nodes.len() as u64 / 2 + 1;
    set(majority, nodes)
}

fn btreeset(nodes: &[u64]) -> BTreeSet<u64> {
    nodes.iter().copied().collect()
}

fn all_subsets(ids: &[u64]) -> Vec<Vec<u64>> {
    (0..(1 << ids.len()))
        .map(|mask| {
            ids.iter()
                .enumerate()
                .filter(|(i, _)| mask & (1 << i) != 0)
                .map(|(_, id)| *id)
                .collect::<Vec<_>>()
        })
        .collect()
}

fn is_subset(lhs: &[u64], rhs: &[u64]) -> bool {
    lhs.iter().all(|id| rhs.contains(id))
}

fn assert_is_quorum_monotonic(qset: &QuorumTree<u64>, ids: &[u64]) {
    let subsets = all_subsets(ids);

    for lhs in &subsets {
        if !qset.is_quorum(lhs) {
            continue;
        }

        for rhs in &subsets {
            if is_subset(lhs, rhs) {
                assert!(qset.is_quorum(rhs), "lhs: {lhs:?}, rhs: {rhs:?}");
            }
        }
    }
}

fn is_majority_quorum(config: &BTreeSet<u64>, ids: &[u64]) -> bool {
    let majority = config.len() / 2 + 1;
    config.iter().filter(|id| ids.contains(id)).count() >= majority
}

fn assert_quorum_matches_raft_joint(qset: &QuorumTree<u64>, configs: Vec<BTreeSet<u64>>, ids: &[u64]) {
    for selected in all_subsets(ids) {
        assert_eq!(
            configs.iter().all(|config| is_majority_quorum(config, &selected)),
            qset.is_quorum(&selected),
            "selected ids: {selected:?}"
        );
    }
}

#[test]
fn impl_display_test_display_single_line() {
    let flat = QuorumTree::new(2, vec![id(3), id(1), id(2)]).unwrap();
    assert_eq!("2/(1,2,3)", flat.display());
}

#[test]
fn test_display_single_line() {
    let nested = QuorumTree::new(2, vec![set(1, &[3, 4]), id(5), set(1, &[1, 2])]).unwrap();
    assert_eq!("2/(5,1/(1,2),1/(3,4))", nested.display());
}

#[test]
fn impl_display_test_display_multiline() {
    let flat = QuorumTree::new(2, vec![id(3), id(1), id(2)]).unwrap();
    let expected = r#"2/(
  1,
  2,
  3,
)"#;
    assert_eq!(expected, flat.display_multiline());
}

#[test]
fn test_display_multiline() {
    let nested = QuorumTree::new(2, vec![set(1, &[3, 4]), id(5), set(1, &[1, 2])]).unwrap();
    let expected = r#"2/(
  5,
  1/(
    1,
    2,
  ),
  1/(
    3,
    4,
  ),
)"#;
    assert_eq!(expected, nested.display_multiline());
}

#[test]
fn test_canonical_id_generation() {
    let qset = QuorumTree::new(2, vec![id(3), id(1), id(2)]).unwrap();

    assert_eq!("2/(Id=1,Id=2,Id=3)", qset.canonical_id());
}

#[test]
fn test_eq_ignores_construction_order() {
    let a = QuorumTree::new(2, vec![id(1), id(2), id(3)]).unwrap();
    let b = QuorumTree::new(2, vec![id(3), id(1), id(2)]).unwrap();
    let c = QuorumTree::new(3, vec![id(1), id(2), id(3)]).unwrap();

    assert_eq!(a, b);
    assert_eq!(a.canonical_id(), b.canonical_id());
    assert_ne!(a, c);
}

#[test]
fn test_hash_is_consistent_with_eq() {
    let a = QuorumTree::new(2, vec![id(1), id(2), id(3)]).unwrap();
    let b = QuorumTree::new(2, vec![id(3), id(2), id(1)]).unwrap();
    let c = QuorumTree::new(3, vec![id(1), id(2), id(3)]).unwrap();

    let set: HashSet<QuorumTree<u64>> = [a.clone(), b.clone(), c.clone()].into_iter().collect();

    assert_eq!(HashSet::from([a, c]), set);
}

#[test]
fn test_canonical_id_accessor() {
    let tree = QuorumTree::new(2, vec![id(3), id(1), id(2)]).unwrap();

    assert_eq!("2/(Id=1,Id=2,Id=3)", tree.canonical_id());
}

#[test]
fn test_children_are_sorted() {
    let tree = QuorumTree::new(2, vec![id(3), id(1), id(2)]).unwrap();

    assert_eq!(vec![id(1), id(2), id(3)], tree.children().to_vec());
}

#[test]
fn test_new_rejects_duplicate_child() {
    let err = QuorumTree::new(2, vec![id(1), id(2), id(2)]).unwrap_err();

    assert_eq!(
        QuorumTreeError::DuplicateChild {
            canonical_id: "Id=2".to_string()
        },
        err
    );

    let sub = QuorumTree::new(1, vec![id(1), id(2)]).unwrap();
    let err = QuorumTree::new(2, vec![Node::Subtree(sub.clone()), Node::Subtree(sub)]).unwrap_err();

    assert_eq!(
        QuorumTreeError::DuplicateChild {
            canonical_id: "Subtree=1/(Id=1,Id=2)".to_string(),
        },
        err
    );
}

#[test]
fn test_new_rejects_unsatisfiable_quorum() {
    let err = QuorumTree::new(3, vec![id(1), id(2)]).unwrap_err();

    assert_eq!(
        QuorumTreeError::UnsatisfiableQuorum {
            quorum_size: 3,
            num_children: 2
        },
        err
    );
}

#[test]
fn test_0_nodes_quorum_0() {
    let qset = qset(0, &[]);

    assert_eq!(0, qset.quorum_size());

    assert!(qset.is_quorum(&[]));
    assert!(qset.is_quorum(&[1]));
}

#[test]
fn test_0_nodes_quorum_1() {
    let err = QuorumTree::<u64>::new(1, vec![]).unwrap_err();

    assert_eq!(
        QuorumTreeError::UnsatisfiableQuorum {
            quorum_size: 1,
            num_children: 0
        },
        err
    );
}

#[test]
fn test_3_nodes_quorum_0() {
    let qset = qset(0, &[1, 2, 3]);

    assert_eq!(0, qset.quorum_size());

    assert!(qset.is_quorum(&[]));
    assert!(qset.is_quorum(&[1]));
    assert!(qset.is_quorum(&[1, 2, 3]));
}

#[test]
fn test_3_nodes_quorum_1() {
    let qset = qset(1, &[1, 2, 3]);

    assert_eq!(1, qset.quorum_size());

    assert!(!qset.is_quorum(&[]));
    assert!(qset.is_quorum(&[1]));
    assert!(qset.is_quorum(&[2]));
    assert!(qset.is_quorum(&[1, 2, 3]));
}

#[test]
fn test_3_nodes() {
    let qset = QuorumTree::new(2, vec![id(1), id(2), id(3)]).unwrap();

    assert_eq!(2, qset.quorum_size());

    assert!(!qset.is_quorum(&[]));
    assert!(!qset.is_quorum(&[1]));
    assert!(!qset.is_quorum(&[2]));
    assert!(!qset.is_quorum(&[3]));

    assert!(qset.is_quorum(&[1, 2]));
    assert!(qset.is_quorum(&[1, 3]));
    assert!(qset.is_quorum(&[2, 3]));
    assert!(qset.is_quorum(&[1, 2, 3]));
}

#[test]
fn test_4_nodes() {
    let qset = QuorumTree::new(2, vec![id(1), id(2), id(3), id(4)]).unwrap();

    assert_eq!(2, qset.quorum_size());

    assert!(!qset.is_quorum(&[]));
    assert!(!qset.is_quorum(&[1]));
    assert!(!qset.is_quorum(&[2]));
    assert!(!qset.is_quorum(&[3]));

    assert!(qset.is_quorum(&[1, 2]));
    assert!(qset.is_quorum(&[1, 3]));
    assert!(qset.is_quorum(&[1, 4]));
    assert!(qset.is_quorum(&[2, 3]));
    assert!(qset.is_quorum(&[2, 4]));
    assert!(qset.is_quorum(&[3, 4]));
    assert!(qset.is_quorum(&[1, 2, 3]));
    assert!(qset.is_quorum(&[1, 2, 4]));
    assert!(qset.is_quorum(&[1, 3, 4]));
    assert!(qset.is_quorum(&[2, 3, 4]));
    assert!(qset.is_quorum(&[1, 2, 3, 4]));
}

#[test]
fn test_4_nodes_quorum_4() {
    let qset = qset(4, &[1, 2, 3, 4]);

    assert_eq!(4, qset.quorum_size());

    assert!(!qset.is_quorum(&[]));
    assert!(!qset.is_quorum(&[1]));
    assert!(!qset.is_quorum(&[1, 2, 3]));
    assert!(qset.is_quorum(&[1, 2, 3, 4]));
}

#[test]
fn test_5_nodes_quorum_4() {
    let qset = qset(4, &[1, 2, 3, 4, 5]);

    assert_eq!(4, qset.quorum_size());

    assert!(!qset.is_quorum(&[]));
    assert!(!qset.is_quorum(&[1]));
    assert!(!qset.is_quorum(&[1, 2, 3]));
    assert!(qset.is_quorum(&[1, 2, 3, 4]));
    assert!(qset.is_quorum(&[1, 2, 3, 4, 5]));
}

#[test]
fn test_joint() {
    let read_quorum_tree = QuorumTree::new(1, vec![raft_config(&[1, 2, 3]), raft_config(&[4, 5, 6])]).unwrap();
    let write_quorum_tree = QuorumTree::new(2, vec![raft_config(&[1, 2, 3]), raft_config(&[4, 5, 6])]).unwrap();

    assert_eq!(1, read_quorum_tree.quorum_size());
    assert_eq!(2, write_quorum_tree.quorum_size());

    assert!(!read_quorum_tree.is_quorum(&[]));
    assert!(!read_quorum_tree.is_quorum(&[1]));
    assert!(!read_quorum_tree.is_quorum(&[1, 4]));

    assert!(read_quorum_tree.is_quorum(&[1, 2]));
    assert!(read_quorum_tree.is_quorum(&[4, 5]));
    assert!(read_quorum_tree.is_quorum(&[1, 2, 4, 5]));

    assert!(!write_quorum_tree.is_quorum(&[]));
    assert!(!write_quorum_tree.is_quorum(&[1]));
    assert!(!write_quorum_tree.is_quorum(&[1, 2]));
    assert!(!write_quorum_tree.is_quorum(&[4, 5]));
    assert!(!write_quorum_tree.is_quorum(&[1, 4]));

    assert!(write_quorum_tree.is_quorum(&[1, 2, 4, 5]));
    assert!(write_quorum_tree.is_quorum(&[1, 3, 4, 6]));
    assert!(write_quorum_tree.is_quorum(&[1, 2, 3, 4, 5, 6]));

    assert_quorum_matches_raft_joint(
        &write_quorum_tree,
        vec![btreeset(&[1, 2, 3]), btreeset(&[4, 5, 6])],
        &[1, 2, 3, 4, 5, 6],
    );

    let write_quorum_tree =
        QuorumTree::new(2, vec![raft_config(&[1, 2, 3, 4]), raft_config(&[3, 4, 5, 6])]).unwrap();

    assert_quorum_matches_raft_joint(
        &write_quorum_tree,
        vec![btreeset(&[1, 2, 3, 4]), btreeset(&[3, 4, 5, 6])],
        &[1, 2, 3, 4, 5, 6],
    );
}

#[test]
fn test_is_quorum_is_monotonic() {
    assert_is_quorum_monotonic(&qset(0, &[1, 2, 3]), &[1, 2, 3]);
    assert_is_quorum_monotonic(&qset(2, &[1, 2, 3]), &[1, 2, 3]);
    assert_is_quorum_monotonic(&qset(4, &[1, 2, 3, 4]), &[1, 2, 3, 4]);

    let qset = QuorumTree::new(2, vec![raft_config(&[1, 2, 3]), raft_config(&[4, 5, 6])]).unwrap();
    assert_is_quorum_monotonic(&qset, &[1, 2, 3, 4, 5, 6]);

    let qset = QuorumTree::new(2, vec![set(2, &[1, 2, 3]), set(2, &[4, 5, 6]), set(2, &[7, 8, 9])]).unwrap();
    assert_is_quorum_monotonic(&qset, &[1, 2, 3, 4, 5, 6, 7, 8, 9]);
}

#[test]
fn test_group() {
    let qset = QuorumTree::new(2, vec![set(2, &[1, 2, 3]), set(2, &[4, 5, 6]), set(2, &[7, 8, 9])]).unwrap();

    assert_eq!(2, qset.quorum_size());

    assert!(!qset.is_quorum(&[]));
    assert!(!qset.is_quorum(&[1, 2]));
    assert!(!qset.is_quorum(&[1, 4, 7]));
    assert!(!qset.is_quorum(&[1, 2, 4]));

    assert!(qset.is_quorum(&[1, 2, 4, 5]));
    assert!(qset.is_quorum(&[1, 3, 7, 9]));
    assert!(qset.is_quorum(&[4, 6, 7, 8]));
    assert!(qset.is_quorum(&[1, 2, 3, 4, 5, 6, 7, 8, 9]));
}

#[test]
fn test_duplicate_subtrees_are_rejected() {
    // Canonically equal subtrees are duplicates even when built in a different node order.
    let err = QuorumTree::new(2, vec![set(2, &[1, 2, 3]), set(2, &[3, 2, 1])]).unwrap_err();

    assert_eq!(
        QuorumTreeError::DuplicateChild {
            canonical_id: "Subtree=2/(Id=1,Id=2,Id=3)".to_string(),
        },
        err
    );
}

// ---------------------------------------------------------------------------
// Further cases.

#[test]
fn test_canonical_id_generation_for_quorum_tree() {
    let qset = QuorumTree::new(2, vec![set(1, &[3, 4]), id(5), set(1, &[1, 2])]).unwrap();

    assert_eq!("2/(Id=5,Subtree=1/(Id=1,Id=2),Subtree=1/(Id=3,Id=4))", qset.canonical_id());
}

#[test]
fn test_canonical_id_is_deterministic_for_node_order() {
    let qset1 = QuorumTree::new(2, vec![set(1, &[3, 4]), id(5), set(1, &[1, 2])]).unwrap();
    let qset2 = QuorumTree::new(2, vec![id(5), set(1, &[1, 2]), set(1, &[3, 4])]).unwrap();
    let qset3 = QuorumTree::new(2, vec![set(1, &[2, 1]), set(1, &[4, 3]), id(5)]).unwrap();

    assert_eq!("2/(Id=5,Subtree=1/(Id=1,Id=2),Subtree=1/(Id=3,Id=4))", qset1.canonical_id());
    assert_eq!(qset1.canonical_id(), qset2.canonical_id());
    assert_eq!(qset1.canonical_id(), qset3.canonical_id());
    assert_eq!(qset1, qset3);
}

#[test]
fn test_canonical_id_hashes_large_quorum_tree() {
    let nested = QuorumTree::new(2, vec![set(1, &[9, 10]), id(11), set(1, &[7, 8])]).unwrap();

    assert_eq!("2/(Id=11,Subtree=1/(Id=7,Id=8),Subtree=1/(Id=9,Id=10))", nested.canonical_id());

    let qset = QuorumTree::new(3, vec![set(2, &[4, 5, 6]), Node::Subtree(nested), id(12), set(2, &[1, 2, 3])]).unwrap();

    let canonical_body = "(Id=12,Subtree=2/(Id=1,Id=2,Id=3),Subtree=2/(Id=11,Subtree=1/(Id=7,Id=8),Subtree=1/(Id=9,Id=10)),Subtree=2/(Id=4,Id=5,Id=6))";
    assert!(canonical_body.len() > quorum_set::tree::MAX_CANONICAL_ID_LEN);
    // The body is longer than 64 bytes, so the ID holds the number of
    // children and the SHA-256 of the body.
    assert_eq!(
        "3/Hash#4:f7bbda30597f2548c831f13d8c9b295ef538373ed7f437414836e41b05be1c0a",
        qset.canonical_id()
    );
}

#[test]
fn canonical_id_of_nodes() {
    assert_eq!("Id=7", id(7).canonical_id());
    assert_eq!("Subtree=1/(Id=1,Id=2)", set(1, &[2, 1]).canonical_id());
    assert_eq!("2/(Id=1,Id=2,Id=3)", CanonicalId::canonical_id(&qset(2, &[1, 2, 3])));
    assert_eq!("42", 42u64.canonical_id());
    assert_eq!("a,b", "a,b".to_string().canonical_id());
}

#[test]
fn embedded_ids_are_escaped() {
    let mut out = Vec::new();
    quorum_set::tree::push_embedded_id(&mut out, b"a(b");
    out.push(b',');
    quorum_set::tree::push_embedded_id(&mut out, b"c,d");
    out.push(b',');
    quorum_set::tree::push_embedded_id(&mut out, b"e]f");
    assert_eq!(b"a%28b,c%2Cd,e%5Df".to_vec(), out);

    let mut out = Vec::new();
    quorum_set::tree::push_embedded_id(&mut out, b"a_Z9");
    assert_eq!(b"a_Z9".to_vec(), out);
}

#[test]
fn embedded_ids_of_64_bytes_are_kept_and_longer_ones_hashed() {
    let raw = "a".repeat(64);
    let mut out = Vec::new();
    quorum_set::tree::push_embedded_id(&mut out, raw.as_bytes());
    assert_eq!(raw.as_bytes().to_vec(), out);

    let raw = "a".repeat(65);
    let mut out = Vec::new();
    quorum_set::tree::push_embedded_id(&mut out, raw.as_bytes());
    assert_eq!(
        b"Hash#1:635361c48bb9eab14198e76ea8ab7f1a41685d6ad62aa9146d301d4f17eb0ae0".to_vec(),
        out
    );
}

#[test]
fn quorum_num_is_quorum_size() {
    let tree = qset(2, &[1, 2, 3]);
    assert_eq!(2, tree.quorum_num());
    assert_eq!(tree.quorum_size(), tree.quorum_num());
}

#[test]
fn node_is_selected_by() {
    assert!(id(1).is_selected_by(&[1, 2]));
    assert!(!id(3).is_selected_by(&[1, 2]));
    assert!(set(2, &[1, 2, 3]).is_selected_by(&[1, 3]));
    assert!(!set(2, &[1, 2, 3]).is_selected_by(&[1, 4]));
}

#[test]
fn tree_ids_are_each_leaf_once() {
    let group_a = QuorumTree::new(2, vec![id(1), id(2), id(3)]).unwrap();
    let group_b = QuorumTree::new(2, vec![id(3), id(4), id(5)]).unwrap();
    let tree = QuorumTree::new(2, vec![Node::Subtree(group_a), Node::Subtree(group_b), id(9)]).unwrap();

    assert_eq!(vec![1, 2, 3, 4, 5, 9], tree.ids());
}

#[test]
fn flat_tree_with_majority_size_is_the_majority_rule() {
    let tree = qset(3, &[1, 2, 3, 4, 5]);
    let flat = btreeset(&[1, 2, 3, 4, 5]);

    for selected in all_subsets(&[1, 2, 3, 4, 5, 6]) {
        assert_eq!(flat.is_quorum(&selected), tree.is_quorum(&selected), "{selected:?}");
    }
}

#[test]
fn ids_outside_the_tree_are_ignored() {
    let tree = qset(2, &[1, 2, 3]);

    assert!(!tree.is_quorum(&[1, 7, 8, 9]));
    assert!(tree.is_quorum(&[1, 2, 7, 8, 9]));
    assert!(tree.is_quorum(&[2, 2, 3]));
}

// ---------------------------------------------------------------------------
// Text and byte-string node IDs.

fn str_id(s: &str) -> Node<String> {
    Node::Id(s.to_string())
}

#[test]
fn test_canonical_id_escapes_node_id() {
    let qset = QuorumTree::new(1, vec![str_id("a(b"), str_id("c,d"), str_id("e]f")]).unwrap();

    assert_eq!("1/(Id=a%28b,Id=c%2Cd,Id=e%5Df)", qset.canonical_id());
}

#[test]
fn test_canonical_id_separates_nodes() {
    let qset1 = QuorumTree::new(1, vec![str_id("ab"), str_id("c")]).unwrap();
    let qset2 = QuorumTree::new(1, vec![str_id("a"), str_id("bc")]).unwrap();

    assert_eq!("1/(Id=ab,Id=c)", qset1.canonical_id());
    assert_eq!("1/(Id=a,Id=bc)", qset2.canonical_id());
    assert_ne!(qset1.canonical_id(), qset2.canonical_id());
}

#[test]
fn test_canonical_id_escapes_nested_set() {
    let qset = QuorumTree::new(1, vec![Node::Subtree(QuorumTree::new(1, vec![str_id("a,b")]).unwrap())]).unwrap();

    assert_eq!("1/(Subtree=1/(Id=a%2Cb))", qset.canonical_id());
}

#[test]
fn test_canonical_id_keeps_64_char_user_id() {
    let raw_id = "a".repeat(64);
    let node = str_id(&raw_id);

    assert_eq!(format!("Id={}", raw_id), node.canonical_id());

    let qset = QuorumTree::new(1, vec![node]).unwrap();

    assert_eq!(
        "1/Hash#1:5b73ff9467e04134c5408ff58a9151f89d59b9e0d42d2b274901e38dac22b8cf",
        qset.canonical_id()
    );
}

#[test]
fn test_canonical_id_hashes_long_user_id() {
    let raw_id = "a".repeat(65);
    let node = str_id(&raw_id);

    assert_eq!(
        "Id=Hash#1:635361c48bb9eab14198e76ea8ab7f1a41685d6ad62aa9146d301d4f17eb0ae0",
        node.canonical_id()
    );

    let qset = QuorumTree::new(1, vec![node, str_id("b")]).unwrap();

    assert_eq!(
        "1/Hash#2:d3cd62fe20b51a819da9b88e8bdae8e52de56922371181a53a34d80927c85509",
        qset.canonical_id()
    );
}

#[test]
fn byte_string_trees_evaluate_quorums() {
    let bytes_id = |s: &str| Node::Id(s.as_bytes().to_vec());
    let tree = QuorumTree::new(2, vec![bytes_id("alice"), bytes_id("bob"), bytes_id("carol")]).unwrap();
    let alice = b"alice".to_vec();
    let bob = b"bob".to_vec();
    let dave = b"dave".to_vec();

    assert!(tree.is_quorum(&[alice.clone(), bob.clone()]));
    assert!(!tree.is_quorum(&[alice.clone(), dave.clone()]));
    assert!(!tree.is_quorum(&[alice.clone(), alice.clone()]));
    assert_eq!(vec![alice, bob, b"carol".to_vec()], tree.ids());
}

#[test]
fn text_trees_evaluate_quorums() {
    let tree = QuorumTree::new(2, vec![str_id("carol"), str_id("alice"), str_id("bob")]).unwrap();
    let alice = "alice".to_string();
    let bob = "bob".to_string();

    assert!(tree.is_quorum(&[bob.clone(), alice.clone()]));
    assert!(!tree.is_quorum(&[alice.clone(), "dave".to_string()]));
    assert_eq!(vec![alice, bob, "carol".to_string()], tree.ids());
    assert_eq!("2/(Id=alice,Id=bob,Id=carol)", tree.canonical_id());
    assert_eq!("Id=caf%C3%A9", str_id("caf\u{e9}").canonical_id());
}

#[test]
fn canonical_ids_stay_within_111_bytes() {
    let long: Vec<Node<Vec<u8>>> = (0..40u8).map(|i| Node::Id(vec![b'x'; 70 + i as usize])).collect();
    let tree = QuorumTree::new(u64::MAX.min(40), long).unwrap();
    assert!(tree.canonical_id().len() <= quorum_set::tree::MAX_TREE_ID_LEN);
    let tree = QuorumTree::new(0, vec![id(u64::MAX)]).unwrap();
    assert!(tree.canonical_id().len() <= quorum_set::tree::MAX_TREE_ID_LEN);
}

#[test]
fn trees_are_ordered_by_canonical_id() {
    let a = QuorumTree::new(2, vec![id(1), id(2), id(3)]).unwrap();
    let b = QuorumTree::new(2, vec![id(3), id(2), id(1)]).unwrap();
    let c = QuorumTree::new(3, vec![id(1), id(2), id(3)]).unwrap();
    let d = QuorumTree::new(1, vec![id(9)]).unwrap();

    assert!(a < c);
    assert!(d < a);
    assert!(a <= b && b <= a);
    assert_eq!(a.canonical_id() < c.canonical_id(), a < c);
    assert_eq!(a.canonical_id() < d.canonical_id(), a < d);
}

#[test]
fn integer_and_text_canonical_ids() {
    assert_eq!("255", 255u8.canonical_id());
    assert_eq!("65535", u16::MAX.canonical_id());
    assert_eq!("0", 0u32.canonical_id());
    assert_eq!("340282366920938463463374607431768211455", u128::MAX.canonical_id());
    assert_eq!("7", 7usize.canonical_id());
    assert_eq!("-128", i8::MIN.canonical_id());
    assert_eq!("-12", (-12i16).canonical_id());
    assert_eq!("42", 42i32.canonical_id());
    assert_eq!("-9223372036854775808", i64::MIN.canonical_id());
    assert_eq!("-170141183460469231731687303715884105728", i128::MIN.canonical_id());
    assert_eq!("-1", (-1isize).canonical_id());
    assert_eq!("a,b", "a,b".canonical_id());
}

#[test]
fn signed_ids_are_ordered_by_value_and_escaped() {
    let tree = QuorumTree::new(1, vec![Node::Id(3i32), Node::Id(-5i32), Node::Id(-40i32)]).unwrap();

    assert_eq!("1/(Id=%2D40,Id=%2D5,Id=3)", tree.canonical_id());
    assert_eq!(vec![-40, -5, 3], tree.ids());
    assert!(tree.is_quorum(&[-5]));
    assert!(!tree.is_quorum(&[5]));
}

#[test]
fn text_and_signed_trees_display() {
    let text = QuorumTree::new(1, vec![str_id("bob"), Node::Subtree(QuorumTree::new(1, vec![str_id("caf\u{e9}")]).unwrap())]).unwrap();
    assert_eq!("1/(bob,1/(caf\u{e9}))", text.display());
    let signed = QuorumTree::new(2, vec![Node::Id(-4i64), Node::Id(9i64)]).unwrap();
    assert_eq!("2/(-4,9)", signed.display());
    assert_eq!("2/(\n  -4,\n  9,\n)", signed.display_multiline());
}
