use std::collections::BTreeSet;
use std::sync::Arc;

use quorum_set::verify_intersection;
use quorum_set::Coherent;
use quorum_set::FindCoherent;
use quorum_set::Node;
use quorum_set::QuorumBridge;
use quorum_set::QuorumIntersection;
use quorum_set::QuorumSet;
use quorum_set::QuorumTree;

fn bs(ids: &[u64]) -> BTreeSet<u64> {
    ids.iter().copied().collect()
}

fn leaf(i: u64) -> Node<u64> {
    Node::Id(i)
}

#[test]
fn test_intersects_with() {
    let s123 = || bs(&[1, 2, 3]);
    let s345 = || bs(&[3, 4, 5]);
    let s789 = || bs(&[7, 8, 9]);

    let j123 = vec![s123()];
    let j345 = vec![s345()];
    let j123_345 = vec![s123(), s345()];
    let j345_789 = vec![s345(), s789()];

    assert_eq!(Some(true), j123.intersects_with(&j123));
    assert_eq!(None, j123.intersects_with(&j345));
    assert_eq!(Some(true), j123.intersects_with(&j123_345));
    assert_eq!(None, j123.intersects_with(&j345_789));

    assert_eq!(None, j345.intersects_with(&j123));
    assert_eq!(Some(true), j345.intersects_with(&j345));
    assert_eq!(Some(true), j345.intersects_with(&j123_345));
    assert_eq!(Some(true), j345.intersects_with(&j345_789));

    assert_eq!(Some(true), j123_345.intersects_with(&j123));
    assert_eq!(Some(true), j123_345.intersects_with(&j345));
    assert_eq!(Some(true), j123_345.intersects_with(&j123_345));
    assert_eq!(Some(true), j123_345.intersects_with(&j345_789));

    assert_eq!(None, j345_789.intersects_with(&j123));
    assert_eq!(Some(true), j345_789.intersects_with(&j345));
    assert_eq!(Some(true), j345_789.intersects_with(&j123_345));
    assert_eq!(Some(true), j345_789.intersects_with(&j345_789));
}

#[test]
fn test_intersects_with_empty_joint() {
    let empty: Vec<BTreeSet<u64>> = vec![];
    let j123 = vec![bs(&[1, 2, 3])];

    assert_eq!(Some(false), empty.intersects_with(&j123));
    assert_eq!(Some(false), j123.intersects_with(&empty));
    assert_eq!(Some(false), empty.intersects_with(&empty));
}

#[test]
fn test_verify_intersection() {
    let s123 = bs(&[1, 2, 3]);
    let s12 = bs(&[1, 2]);
    let s45 = bs(&[4, 5]);

    assert!(verify_intersection(&s123, &s123));
    assert!(verify_intersection(&s12, &s123));
    assert!(verify_intersection(&s123, &s12));
    assert!(!verify_intersection(&s123, &s45));
}

#[test]
fn test_verify_intersection_empty_joint() {
    let empty: Vec<BTreeSet<u64>> = vec![];
    let j123 = vec![bs(&[1, 2, 3])];

    assert!(!verify_intersection(&empty, &j123));
    assert!(!verify_intersection(&empty, &empty));
}

#[test]
fn test_verify_intersection_exact_where_intersects_with_is_conservative() {
    let j123 = vec![bs(&[1, 2, 3])];
    let j12 = vec![bs(&[1, 2])];

    assert!(verify_intersection(&j123, &j12));
    assert_eq!(None, j123.intersects_with(&j12));
}

#[test]
fn test_intersects_with_agrees_with_verify_intersection() {
    let joints: Vec<Vec<BTreeSet<u64>>> = vec![
        vec![],
        vec![bs(&[1, 2, 3])],
        vec![bs(&[3, 4, 5])],
        vec![bs(&[1, 2, 3]), bs(&[3, 4, 5])],
        vec![bs(&[3, 4, 5]), bs(&[7, 8, 9])],
    ];

    for a in &joints {
        for b in &joints {
            let Some(intersects) = a.intersects_with(b) else {
                continue;
            };
            let exact = verify_intersection(a, b);
            assert_eq!(exact, intersects, "a: {a:?}, b: {b:?}");
        }
    }
}

#[test]
fn test_verify_intersection_tree_read_write() {
    let write = bs(&[1, 2, 3]);

    let read = QuorumTree::new(1, vec![
        Node::Subtree(QuorumTree::new(2, vec![Node::Id(2), Node::Id(3)]).unwrap()),
        Node::Subtree(QuorumTree::new(2, vec![Node::Id(8), Node::Id(9)]).unwrap()),
    ])
    .unwrap();
    assert!(!verify_intersection(&read, &write));

    let read = QuorumTree::new(2, vec![Node::Id(2), Node::Id(3)]).unwrap();
    assert!(verify_intersection(&read, &write));
}

#[test]
fn test_bridge_to() {
    let s1 = || bs(&[1, 2, 3]);
    let s2 = || bs(&[3, 4, 5]);
    let s3 = || bs(&[7, 8, 9]);

    let j1 = vec![s1()];
    let j2 = vec![s2()];
    let j12 = vec![s1(), s2()];
    let j23 = vec![s2(), s3()];

    assert_eq!(j1, j1.bridge_to(s1()));
    assert_eq!(j12, j1.bridge_to(s2()));
    assert_eq!(j1, j12.bridge_to(s1()));
    assert_eq!(j2, j12.bridge_to(s2()));
    assert_eq!(j23, j12.bridge_to(s3()));
}

#[test]
fn test_bridge_to_multi_config_joint() {
    let s1 = || bs(&[1, 2, 3]);
    let s2 = || bs(&[3, 4, 5]);
    let s3 = || bs(&[5, 6, 7]);
    let s4 = || bs(&[7, 8, 9]);

    let joint = vec![s1(), s2(), s3()];

    assert_eq!(vec![s2()], joint.bridge_to(s2()));
    assert_eq!(vec![s3(), s4()], joint.bridge_to(s4()));
}

#[test]
fn test_bridge_to_from_empty_joint_config() {
    let joint: Vec<BTreeSet<u64>> = vec![];
    let other = bs(&[1, 2, 3]);

    assert_eq!(vec![other.clone()], joint.bridge_to(other));
}

#[test]
fn test_simple_quorum_set_impl() {
    let m12345 = bs(&[1, 2, 3, 4, 5]);

    assert!(!m12345.is_quorum(&[0]));
    assert!(!m12345.is_quorum(&[0, 1, 2]));
    assert!(!m12345.is_quorum(&[6, 7, 8]));
    assert!(m12345.is_quorum(&[1, 2, 3]));
    assert!(m12345.is_quorum(&[3, 4, 5]));
    assert!(m12345.is_quorum(&[1, 3, 4, 5]));
}

#[test]
fn test_simple_quorum_set_dedupes_candidate_ids() {
    let m12345 = bs(&[1, 2, 3, 4, 5]);

    assert!(!m12345.is_quorum(&[1, 1, 1]));
    assert!(!m12345.is_quorum(&[1, 2, 2]));
    assert!(m12345.is_quorum(&[1, 2, 3, 3]));
}

#[test]
fn test_joint_quorum_set_impl() {
    {
        let qs = vec![bs(&[1, 2, 3, 4, 5])];

        assert!(!qs.is_quorum(&[0]));
        assert!(!qs.is_quorum(&[0, 1, 2]));
        assert!(!qs.is_quorum(&[6, 7, 8]));
        assert!(qs.is_quorum(&[1, 2, 3]));
        assert!(qs.is_quorum(&[3, 4, 5]));
        assert!(qs.is_quorum(&[1, 3, 4, 5]));
    }

    {
        let qs = vec![bs(&[1, 2, 3, 4, 5]), bs(&[6, 7, 8])];

        assert!(!qs.is_quorum(&[0]));
        assert!(!qs.is_quorum(&[0, 1, 2]));
        assert!(!qs.is_quorum(&[6, 7, 8]));
        assert!(!qs.is_quorum(&[1, 2, 3]));
        assert!(qs.is_quorum(&[1, 2, 3, 6, 7]));
        assert!(qs.is_quorum(&[1, 2, 3, 4, 7, 8]));
    }
}

#[test]
fn test_joint_quorum_set_dedupes_candidate_ids() {
    let qs = vec![bs(&[1, 2, 3, 4, 5]), bs(&[6, 7, 8])];

    assert!(!qs.is_quorum(&[1, 2, 3, 6, 6]));
    assert!(qs.is_quorum(&[1, 2, 3, 6, 7, 7]));
}

#[test]
fn test_ids() {
    {
        let m12345 = bs(&[1, 2, 3, 4, 5]);
        assert_eq!(bs(&[1, 2, 3, 4, 5]), m12345.ids().into_iter().collect());
    }

    {
        let qs = vec![bs(&[1, 2, 3, 4, 5]), bs(&[4, 5, 6, 7, 8])];
        assert_eq!(bs(&[1, 2, 3, 4, 5, 6, 7, 8]), qs.ids().into_iter().collect());
    }
}

#[test]
fn test_quorum_tree_impl() {
    let group_a = QuorumTree::new(2, vec![leaf(1), leaf(2), leaf(3)]).unwrap();
    let group_b = QuorumTree::new(2, vec![leaf(3), leaf(4), leaf(5)]).unwrap();
    let qset = QuorumTree::new(2, vec![Node::Subtree(group_a), Node::Subtree(group_b)]).unwrap();

    assert_eq!(bs(&[1, 2, 3, 4, 5]), qset.ids().into_iter().collect());

    assert!(!qset.is_quorum(&[1, 2, 3]));
    assert!(!qset.is_quorum(&[1, 3]));
    assert!(qset.is_quorum(&[1, 3, 5]));
    assert!(qset.is_quorum(&[1, 2, 3, 4]));
    assert!(qset.is_quorum(&[1, 3, 4, 5]));
}

#[test]
fn test_quorum_tree_dedupes_candidate_ids() {
    let group_a = QuorumTree::new(2, vec![leaf(1), leaf(2), leaf(3)]).unwrap();
    let group_b = QuorumTree::new(2, vec![leaf(4), leaf(5), leaf(6)]).unwrap();
    let qset = QuorumTree::new(2, vec![Node::Subtree(group_a), Node::Subtree(group_b)]).unwrap();

    assert!(!qset.is_quorum(&[1, 1, 2, 4]));
    assert!(qset.is_quorum(&[1, 1, 2, 4, 5]));
}

// ---------------------------------------------------------------------------
// Further cases.

#[test]
fn empty_majority_accepts_nothing_and_empty_joint_accepts_everything() {
    let empty_set: BTreeSet<u64> = BTreeSet::new();
    let empty_joint: Vec<BTreeSet<u64>> = vec![];

    assert!(!empty_set.is_quorum(&[]));
    assert!(!empty_set.is_quorum(&[1, 2]));
    assert!(empty_joint.is_quorum(&[]));
    assert!(empty_joint.is_quorum(&[1, 2]));
    assert!(empty_joint.ids().is_empty());
}

#[test]
fn even_majority_needs_more_than_half() {
    let m1234 = bs(&[1, 2, 3, 4]);

    assert!(!m1234.is_quorum(&[1, 2]));
    assert!(m1234.is_quorum(&[1, 2, 3]));
}

#[test]
fn ids_are_sorted_and_unique() {
    let qs = vec![bs(&[5, 3, 1]), bs(&[4, 3, 2])];
    assert_eq!(vec![1, 2, 3, 4, 5], qs.ids());
    assert_eq!(vec![1, 3, 5], bs(&[5, 3, 1]).ids());
}

#[test]
fn shared_quorum_set_follows_its_target() {
    let inner = bs(&[1, 2, 3]);
    let shared = Arc::new(inner.clone());

    assert_eq!(inner.ids(), shared.ids());
    for ids in [&[][..], &[1], &[1, 2], &[2, 3, 9], &[4, 5]] {
        assert_eq!(inner.is_quorum(ids), shared.is_quorum(ids));
    }
    assert!(verify_intersection(&shared, &inner));
}

#[test]
fn coherent_joints_share_a_config() {
    let j123 = vec![bs(&[1, 2, 3])];
    let j123_345 = vec![bs(&[1, 2, 3]), bs(&[3, 4, 5])];
    let j345 = vec![bs(&[3, 4, 5])];

    assert!(j123.is_coherent_with(&j123_345));
    assert!(!j123.is_coherent_with(&j345));
    assert!(verify_intersection(&j123, &j123_345));
}

#[test]
fn find_coherent_matches_bridge_to() {
    let s1 = || bs(&[1, 2, 3]);
    let s2 = || bs(&[3, 4, 5]);
    let s3 = || bs(&[7, 8, 9]);
    let joints = vec![vec![], vec![s1()], vec![s1(), s2()], vec![s2(), s3()]];

    for joint in &joints {
        for target in [s1(), s2(), s3()] {
            assert_eq!(joint.bridge_to(target.clone()), joint.find_coherent(target));
        }
    }
}

#[test]
fn bridge_intersects_both_sides() {
    let s1 = || bs(&[1, 2, 3]);
    let s2 = || bs(&[3, 4, 5]);
    let s3 = || bs(&[7, 8, 9]);
    let joints = vec![vec![s1()], vec![s1(), s2()], vec![s2(), s3()]];

    for joint in &joints {
        for target in [s1(), s2(), s3()] {
            let bridge = joint.bridge_to(target.clone());
            assert!(verify_intersection(joint, &bridge), "{joint:?} -> {bridge:?}");
            assert!(verify_intersection(&bridge, &vec![target.clone()]), "{bridge:?} -> {target:?}");
        }
    }
}

#[test]
fn disjoint_configs_do_not_intersect() {
    let j123 = vec![bs(&[1, 2, 3])];
    let j789 = vec![bs(&[7, 8, 9])];

    assert!(!verify_intersection(&j123, &j789));
    assert_eq!(None, j123.intersects_with(&j789));
}

#[test]
fn read_one_write_all_intersects() {
    let read = QuorumTree::new(1, vec![leaf(1), leaf(2), leaf(3)]).unwrap();
    let write = QuorumTree::new(3, vec![leaf(1), leaf(2), leaf(3)]).unwrap();
    let weak_write = QuorumTree::new(2, vec![leaf(1), leaf(2), leaf(3)]).unwrap();

    assert!(read.is_quorum(&[1]));
    assert!(!write.is_quorum(&[1, 2]));
    assert!(write.is_quorum(&[1, 2, 3]));
    assert!(verify_intersection(&read, &write));
    assert!(!verify_intersection(&read, &weak_write));
}

#[test]
fn quorum_intersection_is_symmetric() {
    let configs: Vec<Vec<BTreeSet<u64>>> = vec![
        vec![],
        vec![bs(&[1, 2, 3])],
        vec![bs(&[1, 2])],
        vec![bs(&[3, 4, 5])],
        vec![bs(&[1, 2, 3]), bs(&[3, 4, 5])],
    ];
    for a in &configs {
        for b in &configs {
            assert_eq!(verify_intersection(a, b), verify_intersection(b, a), "a: {a:?}, b: {b:?}");
        }
    }
    let read = QuorumTree::new(1, vec![leaf(1), leaf(2), leaf(3)]).unwrap();
    let s123 = bs(&[1, 2, 3]);
    assert_eq!(verify_intersection(&read, &s123), verify_intersection(&s123, &read));
}

#[test]
fn integer_key_sets_are_majority_and_joint_rules() {
    let flat: BTreeSet<i32> = [-3, 0, 7].into_iter().collect();
    assert!(flat.is_quorum(&[-3, 7]));
    assert!(!flat.is_quorum(&[-3, 8]));
    assert_eq!(vec![-3, 0, 7], flat.ids());

    let a: BTreeSet<u8> = [1, 2, 3].into_iter().collect();
    let b: BTreeSet<u8> = [3, 4, 5].into_iter().collect();
    let joint = vec![a, b];
    assert!(joint.is_quorum(&[1, 3, 4]));
    assert!(!joint.is_quorum(&[1, 2, 4]));
    assert_eq!(vec![1, 2, 3, 4, 5], joint.ids());
}

#[test]
fn integer_key_joints_share_configs() {
    let c = |ids: &[i64]| -> BTreeSet<i64> { ids.iter().copied().collect() };
    let a = vec![c(&[-1, 2, 3]), c(&[4, 5, 6])];
    let b = vec![c(&[4, 5, 6])];
    assert_eq!(Some(true), a.intersects_with(&b));
    assert!(a.is_coherent_with(&b));
    assert_eq!(vec![c(&[4, 5, 6]), c(&[7, 8, 9])], a.bridge_to(c(&[7, 8, 9])));
}
