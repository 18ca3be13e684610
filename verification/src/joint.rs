//! Quorum intersection and membership-change bridges for joint configs.

use std::collections::BTreeSet;
use vstd::prelude::*;
use crate::intersection::{quorum_intersection, sets_meet};
use crate::int_ids::IntKey;
use crate::quorum_impls::{joint_accepts, lemma_btree_set_finite, lemma_keys_ordered, majority_accepts};
use crate::quorum_set::QuorumSet;
use vstd::std_specs::iter::IteratorSpec;

verus! {

/// Relation between quorum sets whose quorums always intersect.
///
/// `intersects_with` may be conservative: `Some(true)` guarantees the
/// relation; on `Some(false)` and `None` a caller takes the safe path, e.g. a
/// joint config built by [`QuorumBridge`].
pub trait QuorumIntersection<Other>: QuorumSet + Sized where Other: QuorumSet<Id = Self::Id> {
    /// `Some(true)`: every quorum pair intersects; `Some(false)`: some pair
    /// is disjoint; `None`: neither was shown.
    fn intersects_with(&self, other: &Other) -> (r: Option<bool>)
        ensures
            r == Some(true) ==> quorum_intersection(self, other),
    ;
}

/// Builds an intermediate quorum set `X` with `self ~ X ~ other`, the joint
/// step of a membership change from `self` to `other`.
pub trait QuorumBridge<Other>: QuorumSet + Sized where Other: QuorumSet<Id = Self::Id> {
    /// Returns the intermediate quorum set.
    fn bridge_to(&self, other: Other) -> Self;
}

/// Relation between quorum sets whose quorums always intersect, decided by a
/// shared member config.
pub trait Coherent<Other>: QuorumSet + Sized where Other: QuorumSet<Id = Self::Id> {
    /// Returns `true` when this quorum set is coherent with the other.
    fn is_coherent_with(&self, other: &Other) -> (r: bool)
        ensures
            r ==> quorum_intersection(self, other),
    ;
}

/// Finds an intermediate quorum set coherent with both the source and the
/// target quorum set.
pub trait FindCoherent<Other>: QuorumSet + Sized where Other: QuorumSet<Id = Self::Id> {
    /// Builds `X` with `self ~ X ~ other`.
    fn find_coherent(&self, other: Other) -> Self;
}

/// Two joint configs share a member config.
pub open spec fn shares_config<K: IntKey>(a: Seq<BTreeSet<K>>, b: Seq<BTreeSet<K>>) -> bool {
    exists|i: int, j: int| 0 <= i < a.len() && 0 <= j < b.len() && #[trigger] a[i]@ == #[trigger] b[j]@
}

/// Whether two sets hold the same IDs.
fn same_members<K: IntKey>(a: &BTreeSet<K>, b: &BTreeSet<K>) -> (r: bool)
    ensures
        r == (a@ == b@),
{
    proof {
        lemma_keys_ordered::<K>();
        lemma_btree_set_finite(a);
        lemma_btree_set_finite(b);
    }
    if a.len() != b.len() {
        return false;
    }
    for x in it: a.iter()
        invariant
            a@.finite(),
            b@.finite(),
            a@.len() == b@.len(),
            it.seq() == vstd::std_specs::btree::spec_btree_keys_iter(a).remaining(),
            it.seq().unref().to_set() == a@,
            it.seq().take(it.index()).unref().to_set().subset_of(b@),
            it.index() == it.seq().len() ==> a@.subset_of(b@),
    {
        let ghost k = it.index();
        proof {
            lemma_keys_ordered::<K>();
        }
        if !b.contains(x) {
            return false;
        }
        proof {
            assert(it.seq().take(k + 1).unref() =~= it.seq().take(k).unref().push(*x));
            it.seq().take(k).unref().lemma_push_to_set_commute(*x);
            assert(k + 1 == it.seq().len() ==> it.seq().take(k + 1) =~= it.seq());
        }
    }
    proof {
        vstd::set_lib::lemma_subset_equality(a@, b@);
    }
    true
}

/// Finds a shared member config.
fn find_shared<K: IntKey>(a: &Vec<BTreeSet<K>>, b: &Vec<BTreeSet<K>>) -> (r: bool)
    ensures
        r == shares_config(a@, b@),
{
    let mut i: usize = 0;
    while i < a.len()
        invariant
            0 <= i <= a@.len(),
            forall|p: int, q: int| 0 <= p < i && 0 <= q < b@.len() ==> #[trigger] a@[p]@ != #[trigger] b@[q]@,
        decreases a@.len() - i,
    {
        let mut j: usize = 0;
        while j < b.len()
            invariant
                0 <= i < a@.len(),
                0 <= j <= b@.len(),
                forall|p: int, q: int| 0 <= p < i && 0 <= q < b@.len() ==> #[trigger] a@[p]@ != #[trigger] b@[q]@,
                forall|q: int| 0 <= q < j ==> a@[i as int]@ != #[trigger] b@[q]@,
            decreases b@.len() - j,
        {
            if same_members(&a[i], &b[j]) {
                return true;
            }
            j = j + 1;
        }
        i = i + 1;
    }
    false
}

/// Two majorities of one finite voter set share an ID.
proof fn lemma_majorities_meet<V>(c: Set<V>, s1: Set<V>, s2: Set<V>)
    requires
        c.finite(),
        majority_accepts(c, s1),
        majority_accepts(c, s2),
    ensures
        sets_meet(s1, s2),
{
    let a = c.intersect(s1);
    let b = c.intersect(s2);
    vstd::set_lib::lemma_set_intersect_union_lens(a, b);
    vstd::set_lib::lemma_len_subset(a + b, c);
    if a.intersect(b).len() == 0 {
        assert(false);
    }
    assert(a.intersect(b).len() > 0);
    let x = a.intersect(b).choose();
    assert(a.intersect(b).contains(x));
}

/// Joint configs that share a member config have quorum intersection.
pub proof fn lemma_shared_config_intersects<K: IntKey>(a: &Vec<BTreeSet<K>>, b: &Vec<BTreeSet<K>>)
    requires
        shares_config(a@, b@),
    ensures
        quorum_intersection(a, b),
{
    let (i, j) = choose|i: int, j: int| 0 <= i < a@.len() && 0 <= j < b@.len() && #[trigger] a@[i]@ == #[trigger] b@[j]@;
    lemma_btree_set_finite(&a@[i]);
    assert forall|s1: Set<K>, s2: Set<K>| a.accepts(s1) && b.accepts(s2) implies sets_meet(s1, s2) by {
        assert(majority_accepts(a@[i]@, s1));
        assert(majority_accepts(b@[j]@, s2));
        lemma_majorities_meet(a@[i]@, s1, s2);
    }
}

/// A joint config with a member config equal to `c` has quorum intersection
/// with the majority quorum set `c`.
pub proof fn lemma_member_config_intersects<K: IntKey>(a: &Vec<BTreeSet<K>>, c: &BTreeSet<K>)
    requires
        exists|i: int| 0 <= i < a@.len() && #[trigger] a@[i]@ == c@,
    ensures
        quorum_intersection(a, c),
{
    let i = choose|i: int| 0 <= i < a@.len() && #[trigger] a@[i]@ == c@;
    lemma_btree_set_finite(c);
    assert forall|s1: Set<K>, s2: Set<K>| a.accepts(s1) && c.accepts(s2) implies sets_meet(s1, s2) by {
        assert(majority_accepts(a@[i]@, s1));
        lemma_majorities_meet(c@, s1, s2);
    }
}

/// An empty joint config accepts every candidate set.
proof fn lemma_empty_joint_accepts<K: IntKey>(a: &Vec<BTreeSet<K>>, s: Set<K>)
    requires
        a@.len() == 0,
    ensures
        a.accepts(s),
{
}

/// A joint config whose member configs are all non-empty accepts the union
/// of its voters.
proof fn lemma_nonempty_joint_accepts_voters<K: IntKey>(a: &Vec<BTreeSet<K>>)
    requires
        forall|i: int| 0 <= i < a@.len() ==> #[trigger] a@[i]@.len() > 0,
    ensures
        a.accepts(a.voters()),
{
    assert forall|i: int| 0 <= i < a@.len() implies majority_accepts(#[trigger] a@[i]@, a.voters()) by {
        crate::quorum_impls::lemma_joint_voters_contain(a@, i);
        lemma_btree_set_finite(&a@[i]);
        assert(a@[i]@.intersect(a.voters()) =~= a@[i]@);
    }
}

/// Member configs are all non-empty.
pub open spec fn members_nonempty<K: IntKey>(a: Seq<BTreeSet<K>>) -> bool {
    forall|i: int| 0 <= i < a.len() ==> #[trigger] a[i]@.len() > 0
}

/// Two joint configs have quorum intersection when they share a member
/// config. An empty joint accepts the empty set, which intersects nothing,
/// so a pair with an empty joint has none; every other pair is left open.
impl<K: IntKey> QuorumIntersection<Vec<BTreeSet<K>>> for Vec<BTreeSet<K>> {
    fn intersects_with(&self, other: &Vec<BTreeSet<K>>) -> (r: Option<bool>)
        ensures
            r == (if self@.len() == 0 || other@.len() == 0 {
                Some(false)
            } else if shares_config(self@, other@) {
                Some(true)
            } else {
                None
            }),
    {
        if self.len() == 0 || other.len() == 0 {
            return Some(false);
        }
        if find_shared(self, other) {
            proof {
                lemma_shared_config_intersects(self, other);
            }
            Some(true)
        } else {
            None
        }
    }
}

impl<K: IntKey> Coherent<Vec<BTreeSet<K>>> for Vec<BTreeSet<K>> {
    /// Returns `true` when the two joint configs share a member config.
    fn is_coherent_with(&self, other: &Vec<BTreeSet<K>>) -> (r: bool)
        ensures
            r == shares_config(self@, other@),
    {
        let r = find_shared(self, other);
        proof {
            if r {
                lemma_shared_config_intersects(self, other);
            }
        }
        r
    }
}

/// The views of the configs of a joint.
pub open spec fn config_views<K: IntKey>(a: Seq<BTreeSet<K>>) -> Seq<Set<K>> {
    a.map_values(|c: BTreeSet<K>| c@)
}

/// The joint step from `joint` to the flat config `target`: `target` alone
/// when `joint` already holds it, else the last member config of `joint`
/// beside `target`, or `target` alone when `joint` is empty.
pub open spec fn bridge_spec<K: IntKey>(joint: Seq<BTreeSet<K>>, target: Set<K>) -> Seq<Set<K>> {
    if exists|i: int| 0 <= i < joint.len() && #[trigger] joint[i]@ == target {
        seq![target]
    } else if joint.len() > 0 {
        seq![joint.last()@, target]
    } else {
        seq![target]
    }
}

fn bridge<K: IntKey>(joint: &Vec<BTreeSet<K>>, other: BTreeSet<K>, target: &Vec<BTreeSet<K>>, shared: bool) -> (r: Vec<
    BTreeSet<K>,
>)
    requires
        target@.len() == 1,
        target@[0]@ == other@,
        shared == shares_config(joint@, target@),
    ensures
        config_views(r@) == bridge_spec(joint@, other@),
{
    proof {
        let t = target@;
        if shares_config(joint@, t) {
            let (i, j) = choose|i: int, j: int| 0 <= i < joint@.len() && 0 <= j < t.len() && #[trigger] joint@[i]@ == #[trigger] t[j]@;
            assert(joint@[i]@ == other@);
        }
        if exists|i: int| 0 <= i < joint@.len() && #[trigger] joint@[i]@ == other@ {
            let i = choose|i: int| 0 <= i < joint@.len() && #[trigger] joint@[i]@ == other@;
            assert(t[0]@ == other@);
            assert(shares_config(joint@, t));
        }
    }
    let mut r: Vec<BTreeSet<K>> = Vec::new();
    if shared {
        r.push(other);
    } else if joint.len() > 0 {
        let last = joint[joint.len() - 1].clone();
        r.push(last);
        r.push(other);
    } else {
        r.push(other);
    }
    assert(config_views(r@) =~= bridge_spec(joint@, other@));
    r
}

impl<K: IntKey> QuorumBridge<BTreeSet<K>> for Vec<BTreeSet<K>> {
    fn bridge_to(&self, other: BTreeSet<K>) -> (r: Vec<BTreeSet<K>>)
        ensures
            config_views(r@) == bridge_spec(self@, other@),
    {
        let target = vec![other.clone()];
        let shared = self.intersects_with(&target) == Some(true);
        bridge(self, other, &target, shared)
    }
}

impl<K: IntKey> FindCoherent<BTreeSet<K>> for Vec<BTreeSet<K>> {
    fn find_coherent(&self, other: BTreeSet<K>) -> (r: Vec<BTreeSet<K>>)
        ensures
            config_views(r@) == bridge_spec(self@, other@),
    {
        let target = vec![other.clone()];
        let shared = self.is_coherent_with(&target);
        bridge(self, other, &target, shared)
    }
}

/// The answer of [`QuorumIntersection::intersects_with`] for two joint
/// configs.
pub open spec fn intersects_answer<K: IntKey>(a: Seq<BTreeSet<K>>, b: Seq<BTreeSet<K>>) -> Option<bool> {
    if a.len() == 0 || b.len() == 0 {
        Some(false)
    } else if shares_config(a, b) {
        Some(true)
    } else {
        None
    }
}

/// Every definite answer of `intersects_with` is the exact relation, for
/// joint configs whose member configs are non-empty.
pub proof fn lemma_intersects_with_exact<K: IntKey>(a: &Vec<BTreeSet<K>>, b: &Vec<BTreeSet<K>>)
    requires
        members_nonempty(a@),
        members_nonempty(b@),
    ensures
        intersects_answer(a@, b@) matches Some(x) ==> x == quorum_intersection(a, b),
{
    if a@.len() == 0 || b@.len() == 0 {
        let e = Set::<K>::empty();
        if a@.len() == 0 {
            lemma_empty_joint_accepts(a, e);
            if b@.len() == 0 {
                lemma_empty_joint_accepts(b, e);
                assert(!sets_meet(e, e));
                assert(a.accepts(e) && b.accepts(e));
            } else {
                lemma_nonempty_joint_accepts_voters(b);
                assert(!sets_meet(e, b.voters()));
                assert(a.accepts(e) && b.accepts(b.voters()));
            }
        } else {
            lemma_empty_joint_accepts(b, e);
            lemma_nonempty_joint_accepts_voters(a);
            assert(!sets_meet(a.voters(), e));
            assert(a.accepts(a.voters()) && b.accepts(e));
        }
        assert(!quorum_intersection(a, b));
    } else if shares_config(a@, b@) {
        lemma_shared_config_intersects(a, b);
    }
}

/// The joint step of a membership change from a non-empty joint config `a`
/// to the flat config `c` keeps quorum intersection on both sides:
/// `a ~ x ~ c`.
pub proof fn lemma_bridge_intersects_both<K: IntKey>(a: &Vec<BTreeSet<K>>, c: &BTreeSet<K>, x: &Vec<BTreeSet<K>>)
    requires
        a@.len() > 0,
        config_views(x@) == bridge_spec(a@, c@),
    ensures
        quorum_intersection(a, x),
        quorum_intersection(x, c),
{
    let v = config_views(x@);
    assert(v.len() == x@.len());
    if exists|i: int| 0 <= i < a@.len() && #[trigger] a@[i]@ == c@ {
        let i = choose|i: int| 0 <= i < a@.len() && #[trigger] a@[i]@ == c@;
        assert(v[0] == x@[0]@);
        assert(a@[i]@ == x@[0]@);
        assert(shares_config(a@, x@));
        assert(x@[0]@ == c@);
    } else {
        assert(v[0] == x@[0]@);
        assert(v[1] == x@[1]@);
        assert(a@[a@.len() - 1]@ == x@[0]@);
        assert(shares_config(a@, x@));
        assert(x@[1]@ == c@);
    }
    lemma_shared_config_intersects(a, x);
    lemma_member_config_intersects(x, c);
}

} // verus!
