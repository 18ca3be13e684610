use std::collections::BTreeSet;

use quorum_set::IdVal;
use quorum_set::Node;
use quorum_set::QuorumTree;
use quorum_set::QuorumSet;
use quorum_set::QuorumTreeError;
use quorum_set::VecProgress;
use quorum_set::VecProgressEntry;
use quorum_set::VoterOrderError;

fn voters(ids: &[u64]) -> BTreeSet<u64> {
    ids.iter().copied().collect()
}

/// Progress of a, b, c = 1, 2, 3 at 1, 3, 5 under a majority rule.
fn abc() -> VecProgress<IdVal<u64, u64>, BTreeSet<u64>> {
    let mut p = VecProgress::new(voters(&[1, 2, 3]), vec![], |id| IdVal::new(id, 0));
    p.update_progress(&1, 5);
    p.update_progress(&2, 3);
    p.update_progress(&3, 1);
    p
}

fn pairs<Q: QuorumSet<Id = u64>>(p: &VecProgress<IdVal<u64, u64>, Q>) -> Vec<(u64, u64)> {
    p.iter().iter().map(|e| (e.id, e.val)).collect()
}

#[test]
fn test_new_and_new_default() {
    assert_eq!(IdVal { id: 3u64, val: 7u64 }, IdVal::new(3, 7));
    assert_eq!(IdVal::new(2u64, 0u64), IdVal::new_default(2));
}

#[test]
fn id_val_test_display() {
    assert_eq!("3: 7", IdVal::new(3u64, 7u64).display());
}

#[test]
fn test_vec_progress_entry_accessors() {
    let mut id_val = IdVal::new(3u64, 7u64);

    assert_eq!(&3, id_val.id());
    assert_eq!(&7, id_val.progress());

    *id_val.progress_mut() = 9;
    assert_eq!(IdVal::new(3, 9), id_val);
}

#[test]
fn quorum_tree_error_test_display() {
    let err = QuorumTreeError::DuplicateChild {
        canonical_id: "Id=1".to_string(),
    };
    assert_eq!("duplicate child node: Id=1", err.message());

    let err = QuorumTreeError::UnsatisfiableQuorum {
        quorum_size: 3,
        num_children: 2,
    };
    assert_eq!("quorum size 3 exceeds the number of child nodes 2", err.message());
}

// ---------------------------------------------------------------------------
// Progress tracking.

#[test]
fn quorum_accepted_of_initial_state() {
    let p = abc();
    assert_eq!(&3, p.quorum_accepted());
    assert_eq!(3, p.voter_count());
    assert!(p.validate_voter_order().is_ok());
}

#[test]
fn update_above_quorum_accepted_leaves_it() {
    let mut p = abc();
    assert_eq!(Some(&3), p.update_progress(&1, 6));
}

#[test]
fn update_crossing_quorum_accepted_recomputes_it() {
    let mut p = abc();
    assert_eq!(Some(&4), p.update_progress(&2, 4));

    let mut p = abc();
    assert_eq!(Some(&5), p.update_progress(&2, 6));

    let mut p = abc();
    assert_eq!(Some(&4), p.update_progress(&3, 4));

    let mut p = abc();
    assert_eq!(Some(&5), p.update_progress(&3, 6));
}

#[test]
fn update_not_reaching_above_quorum_accepted_leaves_it() {
    let mut p = abc();
    assert_eq!(Some(&3), p.update_progress(&3, 2));

    let mut p = abc();
    assert_eq!(Some(&3), p.update_progress(&3, 3));
}

#[test]
fn update_of_unknown_id_is_none_and_changes_nothing() {
    let mut p = abc();
    let before = pairs(&p);
    assert_eq!(None, p.update_progress(&9, 10));
    assert_eq!(None, p.increase_to(&9, 10));
    assert_eq!(None, p.try_get(&9));
    assert_eq!(None, p.is_voter(&9));
    assert_eq!(before, pairs(&p));
    assert_eq!(&3, p.quorum_accepted());
}

#[test]
fn updating_to_the_same_value_keeps_the_state() {
    let mut p = abc();
    let before = pairs(&p);
    assert_eq!(Some(&3), p.update_progress(&2, 3));
    assert_eq!(before, pairs(&p));
}

#[test]
fn voters_above_quorum_accepted_stay_sorted() {
    let mut p = VecProgress::new(voters(&[1, 2, 3, 4, 5]), vec![], |id| IdVal::new(id, 0));
    let steps = [(1, 3), (2, 5), (3, 1), (4, 7), (5, 2), (3, 6), (1, 8), (5, 9)];
    let mut last = 0;
    for (id, v) in steps {
        let qa = *p.increase_to(&id, v).unwrap();
        assert!(qa >= last);
        last = qa;
        assert!(p.validate_voter_order().is_ok(), "{:?}", pairs(&p));
    }
    // Progress values are 8, 5, 6, 7, 9: the third greatest is 7.
    assert_eq!(&7, p.quorum_accepted());
}

#[test]
fn increase_to_never_lowers() {
    let mut p = abc();
    assert_eq!(Some(&3), p.increase_to(&1, 2));
    assert_eq!(Some(&IdVal::new(1, 5)), p.try_get(&1));
    assert_eq!(Some(&4), p.increase_to(&3, 4));
    assert_eq!(Some(&IdVal::new(3, 4)), p.try_get(&3));
}

#[test]
fn learners_are_tracked_but_never_grant() {
    let mut p = VecProgress::new(voters(&[1, 2, 3]), vec![7, 3, 5, 7], |id| IdVal::new(id, 0));

    // A learner that is also a voter is a voter; repeated IDs count once.
    assert_eq!(3, p.voter_count());
    assert_eq!(vec![(1, 0), (2, 0), (3, 0), (5, 0), (7, 0)], pairs(&p));
    assert_eq!(Some(false), p.is_voter(&5));
    assert_eq!(Some(true), p.is_voter(&3));

    assert_eq!(Some(&0), p.update_progress(&5, 10));
    assert_eq!(Some(&0), p.update_progress(&7, 10));
    assert_eq!(Some(&0), p.update_progress(&1, 10));
    assert_eq!(Some(&10), p.update_progress(&2, 10));
    // Learners keep their places.
    assert_eq!(vec![(1, 10), (2, 10), (3, 0), (5, 10), (7, 10)], pairs(&p));
}

#[test]
fn new_computes_quorum_accepted_from_initial_progress() {
    let p = VecProgress::new(voters(&[1, 2, 3]), vec![], |id| IdVal::new(id, id * 10));
    assert_eq!(&20, p.quorum_accepted());
    assert_eq!(vec![(3, 30), (2, 20), (1, 10)], pairs(&p));
}

#[test]
fn reset_keeps_quorum_accepted_and_moves_the_voter_down() {
    let mut p = abc();
    let e = p.reset_entry_with(&1, |e: &mut IdVal<u64, u64>| e.val = 0);
    assert_eq!(Some(&IdVal::new(1, 0)), e);
    assert_eq!(&3, p.quorum_accepted());
    assert!(p.validate_voter_order().is_ok());
    assert_eq!(None, p.reset_entry_with(&9, |_e: &mut IdVal<u64, u64>| {}));
}

#[test]
fn update_entry_with_recomputes_quorum_accepted() {
    let mut p = abc();
    let q = p.update_entry_with(&3, |e: &mut IdVal<u64, u64>| e.val = 7);
    assert_eq!(Some(&5), q);
    assert_eq!(Some(&IdVal::new(3, 7)), p.try_get(&3));
}

#[test]
fn tuple_entries_are_tracked() {
    let quorum_set = vec![voters(&[0, 1, 2, 3, 4]), voters(&[5, 6, 7])];
    let mut p = VecProgress::<(u64, u64), _>::new(quorum_set, vec![], |id| (id, 0));

    for id in [0, 1, 2, 5, 6] {
        p.update_progress(&id, 1);
    }
    assert_eq!(&1, p.quorum_accepted());
    assert_eq!(Some(&1), p.update_progress(&3, 2));
}

#[test]
fn upgrade_keeps_progress_of_shared_ids() {
    let p = abc();
    let p = p.upgrade_quorum_set(voters(&[2, 3, 4]), vec![1], |id| IdVal::new(id, 0));

    assert_eq!(3, p.voter_count());
    assert_eq!(Some(&IdVal::new(1, 5)), p.try_get(&1));
    assert_eq!(Some(&IdVal::new(4, 0)), p.try_get(&4));
    assert_eq!(Some(false), p.is_voter(&1));
    // Voters 2, 3, 4 are at 3, 1, 0: the majority value is 1.
    assert_eq!(&1, p.quorum_accepted());
}

#[test]
fn collect_mapped_and_display() {
    let p = abc();
    let ids: Vec<u64> = p.collect_mapped(|e: &IdVal<u64, u64>| e.id);
    assert_eq!(vec![1, 2, 3], ids);
    assert_eq!("{1: 5, 2: 3, 3: 1}", p.display());
    assert_eq!("{1=5, 2=3, 3=1}", p.display_with(|e: &IdVal<u64, u64>| format!("{}={}", e.id, e.val)));

    let empty = VecProgress::new(voters(&[]), vec![], |id| IdVal::new(id, 0));
    assert_eq!("{}", empty.display());
}

#[test]
fn into_entries_returns_voters_then_learners() {
    let p = VecProgress::new(voters(&[1, 2]), vec![9], |id| IdVal::new(id, 0));
    assert_eq!(vec![IdVal::new(1, 0), IdVal::new(2, 0), IdVal::new(9, 0)], p.into_entries());
}

#[test]
fn editing_in_place_without_reorder_can_break_the_order() {
    let mut p = abc();
    for e in p.iter_mut_without_reorder() {
        if e.id == 2 {
            e.val = 7;
        }
    }
    let err = p.validate_voter_order().unwrap_err();
    assert_eq!(
        VoterOrderError::NotDescending {
            quorum_accepted: 3,
            previous_entry: (0, 1, 5),
            out_of_order_entry: (1, 2, 7),
            voter_progress: vec![(1, 5), (2, 7), (3, 1)],
            learner_progress: vec![],
        },
        err
    );
    assert_eq!(
        "voter progress above quorum_accepted is not descending: quorum_accepted=3, previous_entry=(0, 1, 5), out_of_order_entry=(1, 2, 7), voter_progress=[(1, 5), (2, 7), (3, 1)], learner_progress=[]",
        err.message()
    );
}

#[test]
fn a_voter_above_after_the_unsorted_suffix_is_reported() {
    let mut p = VecProgress::new(voters(&[1, 2, 3]), vec![4], |id| IdVal::new(id, 0));
    p.update_progress(&1, 5);
    p.update_progress(&2, 3);
    // Entries: 1@5, 2@3, 3@0, learner 4@0; quorum accepted 3.
    for e in p.iter_mut_without_reorder() {
        if e.id == 3 {
            e.val = 4;
        }
        if e.id == 2 {
            e.val = 2;
        }
    }
    let err = p.validate_voter_order().unwrap_err();
    assert_eq!(
        VoterOrderError::AfterUnsortedSuffix {
            quorum_accepted: 3,
            out_of_order_entry: (2, 3, 4),
            voter_progress: vec![(1, 5), (2, 2), (3, 4)],
            learner_progress: vec![(4, 0)],
        },
        err
    );
    assert_eq!(
        "voter progress above quorum_accepted appears after the unsorted suffix: quorum_accepted=3, out_of_order_entry=(2, 3, 4), voter_progress=[(1, 5), (2, 2), (3, 4)], learner_progress=[(4, 0)]",
        err.message()
    );
}

#[test]
fn update_data_keeps_progress() {
    let mut p = VecProgress::new(voters(&[1, 2, 3]), vec![], |id| (id, id, 0u64));
    assert_eq!(Some(&7), p.update_data_with(&2, |d: &mut u64| *d += 7));
    assert_eq!(Some(&(2, 2, 7)), p.try_get(&2));
    assert_eq!(&2, p.quorum_accepted());
    assert_eq!(None, p.update_data_with(&9, |d: &mut u64| *d += 1));
}

/// The greatest voter progress whose voters at or above it form a quorum.
fn greatest_accepted(p: &VecProgress<IdVal<u64, u64>, BTreeSet<u64>>) -> u64 {
    let voters: Vec<(u64, u64)> = p.iter()[..p.voter_count()].iter().map(|e| (e.id, e.val)).collect();
    let mut best = 0;
    for &(_, v) in &voters {
        let ids: Vec<u64> = voters.iter().filter(|(_, w)| *w >= v).map(|(id, _)| *id).collect();
        if p.quorum_set().is_quorum(&ids) && v > best {
            best = v;
        }
    }
    best
}

#[test]
fn updates_keep_the_greatest_accepted_value() {
    let mut p = VecProgress::new(voters(&[1, 2, 3, 4, 5]), vec![6, 7], |id| IdVal::new(id, 0));
    let mut seed = 7u64;
    for _ in 0..200 {
        seed = seed.wrapping_mul(6364136223846793005).wrapping_add(1442695040888963407);
        let id = (seed >> 33) % 7 + 1;
        let step = (seed >> 17) % 4;
        let current = p.try_get(&id).unwrap().val;
        p.update_progress(&id, current + step);
        assert_eq!(greatest_accepted(&p), *p.quorum_accepted(), "{:?}", pairs(&p));
        assert!(p.validate_voter_order().is_ok());
    }
}

#[test]
fn editing_only_data_in_place_keeps_the_tracker_valid() {
    let mut p = VecProgress::new(voters(&[1, 2, 3]), vec![4], |id| (id, id, 0u64));
    for e in p.iter_mut_without_reorder() {
        e.2 = e.0 * 100;
    }
    assert!(p.validate_voter_order().is_ok());
    assert_eq!(Some(&(2, 2, 200)), p.try_get(&2));
    assert_eq!(Some(&3), p.update_progress(&1, 5));
    assert!(p.validate_voter_order().is_ok());
}

#[test]
fn byte_string_ids_track_progress_under_a_quorum_tree() {
    let name = |s: &str| s.as_bytes().to_vec();
    let tree = QuorumTree::new(2, vec![Node::Id(name("a")), Node::Id(name("b")), Node::Id(name("c"))]).unwrap();
    let mut p = VecProgress::new(tree, vec![name("d"), name("a")], |id: Vec<u8>| IdVal::new(id, 0u64));
    assert_eq!(3, p.voter_count());
    assert_eq!(Some(true), p.is_voter(&name("a")));
    assert_eq!(Some(false), p.is_voter(&name("d")));
    assert_eq!(None, p.is_voter(&name("e")));

    assert_eq!(Some(&0), p.update_progress(&name("c"), 4));
    assert_eq!(Some(&0), p.update_progress(&name("d"), 9));
    assert_eq!(Some(&3), p.update_progress(&name("a"), 3));
    assert_eq!(3, *p.quorum_accepted());
    assert!(p.validate_voter_order().is_ok());

    let ids: Vec<Vec<u8>> = p.iter().iter().map(|e| e.id.clone()).collect();
    assert_eq!(vec![name("c"), name("a"), name("b"), name("d")], ids);
}

#[test]
fn upgrade_equals_new_with_the_old_entries_as_defaults() {
    let p = abc();
    let old = pairs(&p);
    let upgraded = p.upgrade_quorum_set(voters(&[2, 3, 4]), vec![1, 5], |id| IdVal::new(id, 0));
    let fresh = VecProgress::new(voters(&[2, 3, 4]), vec![1, 5], |id| match old.iter().find(|e| e.0 == id) {
        Some(e) => IdVal::new(e.0, e.1),
        None => IdVal::new(id, 0),
    });
    assert_eq!(pairs(&fresh), pairs(&upgraded));
    assert_eq!(fresh.voter_count(), upgraded.voter_count());
    assert_eq!(fresh.quorum_accepted(), upgraded.quorum_accepted());
    assert_eq!(vec![(2, 3), (3, 1), (4, 0), (1, 5), (5, 0)], pairs(&upgraded));
    assert_eq!(1, *upgraded.quorum_accepted());
}

#[test]
fn updates_and_resets_keep_voter_and_learner_ids() {
    let mut p = VecProgress::new(voters(&[1, 2, 3]), vec![5, 4, 2], |id| IdVal::new(id, 0));
    p.update_progress(&4, 7);
    p.update_progress(&2, 9);
    p.increase_to(&5, 3);
    p.reset_entry_with(&2, |e| e.val = 1);
    p.update_entry_with(&3, |e| e.val = 6);
    for id in 1..=6u64 {
        let expected = if id <= 3 {
            Some(true)
        } else if id <= 5 {
            Some(false)
        } else {
            None
        };
        assert_eq!(expected, p.is_voter(&id));
        assert_eq!(expected.is_some(), p.try_get(&id).is_some());
    }
    let learners: Vec<u64> = p.iter()[p.voter_count()..].iter().map(|e| e.id).collect();
    assert_eq!(vec![4, 5], learners);
}

#[test]
fn text_ids_display_in_progress() {
    let tree = QuorumTree::new(1, vec![Node::Id("a".to_string()), Node::Id("b".to_string())]).unwrap();
    let mut p = VecProgress::new(tree, vec![], |id: String| IdVal::new(id, 0u64));
    p.update_progress(&"b".to_string(), 4);
    assert_eq!("{b: 4, a: 0}", p.display());
    assert_eq!("b: 4", IdVal::new("b".to_string(), 4u64).display());
}
