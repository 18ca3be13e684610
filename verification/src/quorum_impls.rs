//! Flat majority and joint quorum sets.

use std::collections::BTreeSet;
use vstd::prelude::*;
use vstd::std_specs::btree::{increasing_seq, spec_btree_keys_iter};
use vstd::std_specs::cmp::OrdSpec;
use vstd::std_specs::iter::IteratorSpec;
use crate::int_ids::IntKey;
use crate::node_id::{contains_id, ids_sorted, lemma_ids_sorted_no_duplicates, view_set, views, NodeId};
use crate::quorum_set::QuorumSet;

verus! {

/// `ids` hold more than half of `voters`.
pub open spec fn majority_accepts<V>(voters: Set<V>, ids: Set<V>) -> bool {
    2 * voters.intersect(ids).len() > voters.len()
}

/// The view of a `BTreeSet` of IDs is finite.
pub proof fn lemma_btree_set_finite<K>(m: &BTreeSet<K>)
    ensures
        m@.finite(),
{
    let s = spec_btree_keys_iter(m).remaining().unref().to_set();
    assert(s.finite());
}

/// The IDs that iterating a `BTreeSet` yields: each of its elements once.
proof fn lemma_btree_iter<K>(m: &BTreeSet<K>)
    ensures
        spec_btree_keys_iter(m).remaining().unref().to_set() == m@,
        spec_btree_keys_iter(m).remaining().unref().no_duplicates(),
{
    let s = spec_btree_keys_iter(m).remaining();
    assert(s.unref().to_set() == m@);
    assert(s.no_duplicates());
    assert forall|i: int, j: int| 0 <= i < j < s.len() implies s.unref()[i] != s.unref()[j] by {
        assert(s[i] != s[j]);
    }
}

/// Iterating a `BTreeSet` of IDs yields them in ID order.
proof fn lemma_btree_iter_increasing<K: IntKey>(m: &BTreeSet<K>)
    ensures
        ids_sorted(spec_btree_keys_iter(m).remaining().unref()),
{
    broadcast use vstd::laws_cmp::group_laws_cmp, vstd::std_specs::btree::group_btree_axioms;

    K::lemma_key_order();
    K::lemma_view_is_self();
    let s = spec_btree_keys_iter(m).remaining();
    assert(increasing_seq(s));
    assert forall|i: int, j: int| 0 <= i < j < s.len() implies K::id_lt(
        #[trigger] s.unref()[i]@,
        #[trigger] s.unref()[j]@,
    ) by {
        let (a, b): (&K, &K) = (s[i], s[j]);
        assert(OrdSpec::cmp_spec(&a, &b) is Less);
        assert(OrdSpec::cmp_spec(&*a, &*b) is Less);
        assert(s.unref()[i] == *a && s.unref()[j] == *b);
    }
}

/// `BTreeSet` can rely on the order of integer keys.
pub(crate) proof fn lemma_keys_ordered<K: IntKey>()
    ensures
        vstd::std_specs::btree::key_obeys_cmp_spec::<K>(),
        vstd::laws_cmp::obeys_cmp::<K>(),
{
    broadcast use vstd::std_specs::btree::group_btree_axioms;

    K::lemma_key_order();
}

/// Integer IDs are their own views.
proof fn lemma_key_views<K: IntKey>(s: Seq<K>)
    ensures
        views(s) == s,
        view_set(s) == s.to_set(),
{
    K::lemma_view_is_self();
    assert(views(s) =~= s);
}

proof fn lemma_majority_monotone<V>(voters: Set<V>, a: Set<V>, b: Set<V>)
    requires
        voters.finite(),
        a.subset_of(b),
        majority_accepts(voters, a),
    ensures
        majority_accepts(voters, b),
{
    vstd::set_lib::lemma_len_subset(voters.intersect(a), voters.intersect(b));
}

proof fn lemma_majority_agree<V>(voters: Set<V>, v: Set<V>, s: Set<V>)
    requires
        voters.subset_of(v),
    ensures
        majority_accepts(voters, s) == majority_accepts(voters, s.intersect(v)),
{
    assert(voters.intersect(s) =~= voters.intersect(s.intersect(v)));
}

/// Majority quorum over a flat voter set.
///
/// A candidate set is accepted when it holds more than half of the IDs in
/// the set; an empty set accepts no candidate set.
impl<K: IntKey> QuorumSet for BTreeSet<K> {
    type Id = K;

    open spec fn voters(&self) -> Set<K> {
        self@
    }

    open spec fn accepts(&self, ids: Set<K>) -> bool {
        majority_accepts(self@, ids)
    }

    fn is_quorum(&self, ids: &[K]) -> (r: bool) {
        proof {
            lemma_key_views(ids@);
        }
        let ghost s = ids@.to_set();
        proof {
            lemma_btree_set_finite(self);
        }
        let limit = self.len();
        let mut count: usize = 0;
        let ghost mut seen: Set<K> = Set::empty();
        proof {
            lemma_keys_ordered::<K>();
            lemma_btree_iter(self);
            assert(Set::<K>::empty().intersect(s) =~= Set::<K>::empty());
        }
        for id in it: self.iter()
            invariant
                it.seq() == spec_btree_keys_iter(self).remaining(),
                s == ids@.to_set(),
                view_set(ids@) == ids@.to_set(),
                limit == self@.len(),
                self@.finite(),
                seen == it.seq().take(it.index() as int).unref().to_set(),
                it.seq().unref().to_set() == self@,
                it.seq().unref().no_duplicates(),
                seen.subset_of(self@),
                count == seen.intersect(s).len(),
                2 * count <= limit,
                it.index() == it.seq().len() ==> seen == self@,
        {
            let ghost k = it.index() as int;
            let ghost all = it.seq().unref();
            proof {
                assert(all[k] == *id);
                assert(it.seq().take(k + 1).unref() =~= it.seq().take(k).unref().push(*id));
                it.seq().take(k).unref().lemma_push_to_set_commute(*id);
                assert(!seen.contains(*id)) by {
                    let pre = it.seq().take(k).unref();
                    if pre.to_set().contains(*id) {
                        let j = choose|j: int| 0 <= j < pre.len() && #[trigger] pre[j] == *id;
                        assert(all[j] == all[k]);
                    }
                }
            }
            proof {
                K::lemma_view_is_self();
            }
            if contains_id(ids, id) {
                proof {
                    assert(seen.insert(*id).intersect(s) =~= seen.intersect(s).insert(*id));
                    vstd::set_lib::lemma_len_subset(seen.insert(*id).intersect(s), self@);
                }
                count = count + 1;
                if count > limit - count {
                    proof {
                        vstd::set_lib::lemma_len_subset(seen.insert(*id).intersect(s), self@.intersect(s));
                    }
                    return true;
                }
            } else {
                proof {
                    assert(seen.insert(*id).intersect(s) =~= seen.intersect(s));
                }
            }
            proof {
                seen = seen.insert(*id);
            }
            proof {
                assert(seen =~= it.seq().take(k + 1).unref().to_set());
                assert(k + 1 == it.seq().len() ==> it.seq().take(k + 1) =~= it.seq());
            }
        }
        false
    }

    fn ids(&self) -> (r: Vec<K>)
        ensures
            ids_sorted(r@),
    {
        let mut out: Vec<K> = Vec::new();
        proof {
            lemma_keys_ordered::<K>();
            lemma_btree_iter(self);
            lemma_btree_iter_increasing(self);
        }
        for id in it: self.iter()
            invariant
                it.seq() == spec_btree_keys_iter(self).remaining(),
                out@ == it.seq().take(it.index() as int).unref(),
                it.index() == it.seq().len() ==> out@ == spec_btree_keys_iter(self).remaining().unref(),
        {
            let ghost k = it.index() as int;
            out.push(*id);
            proof {
                assert(it.seq().take(k + 1).unref() =~= it.seq().take(k).unref().push(*id));
                assert(k + 1 == it.seq().len() ==> it.seq().take(k + 1) =~= it.seq());
            }
        }
        proof {
            lemma_sorted_ids_views(out@);
        }
        out
    }

    proof fn lemma_upward_closed(&self, a: Set<K>, b: Set<K>) {
        lemma_btree_set_finite(self);
        lemma_majority_monotone(self@, a, b);
    }

    proof fn lemma_closed_over_voters(&self, s: Set<K>) {
        lemma_majority_agree(self@, self@, s);
    }

    proof fn lemma_voters_finite(&self) {
        lemma_btree_set_finite(self);
    }
}

/// Integer IDs in ID order hold each ID once.
proof fn lemma_sorted_ids_views<K: IntKey>(s: Seq<K>)
    requires
        ids_sorted(s),
    ensures
        views(s).no_duplicates(),
        view_set(s) == s.to_set(),
{
    lemma_key_views(s);
    lemma_ids_sorted_no_duplicates(s);
}

/// Every ID of every member config, each once.
pub open spec fn joint_voters<K>(configs: Seq<BTreeSet<K>>) -> Set<K>
    decreases configs.len(),
{
    if configs.len() == 0 {
        Set::empty()
    } else {
        joint_voters(configs.drop_last()).union(configs.last()@)
    }
}

/// `ids` hold a majority of every member config.
pub open spec fn joint_accepts<K>(configs: Seq<BTreeSet<K>>, ids: Set<K>) -> bool {
    forall|i: int| 0 <= i < configs.len() ==> majority_accepts(#[trigger] configs[i]@, ids)
}

/// Every member config is part of the voters of a joint config.
pub proof fn lemma_joint_voters_contain<K>(configs: Seq<BTreeSet<K>>, i: int)
    requires
        0 <= i < configs.len(),
    ensures
        configs[i]@.subset_of(joint_voters(configs)),
    decreases configs.len(),
{
    if i < configs.len() - 1 {
        lemma_joint_voters_contain(configs.drop_last(), i);
    }
}

proof fn lemma_joint_voters_finite<K>(configs: Seq<BTreeSet<K>>)
    ensures
        joint_voters(configs).finite(),
    decreases configs.len(),
{
    if configs.len() > 0 {
        lemma_joint_voters_finite(configs.drop_last());
        lemma_btree_set_finite(&configs.last());
    }
}

/// Joint quorum over several flat voter sets.
///
/// A candidate set is accepted only when it is a majority of every member
/// config; the voters are the union of all configs. An empty joint accepts
/// every candidate set.
impl<K: IntKey> QuorumSet for Vec<BTreeSet<K>> {
    type Id = K;

    open spec fn voters(&self) -> Set<K> {
        joint_voters(self@)
    }

    open spec fn accepts(&self, ids: Set<K>) -> bool {
        joint_accepts(self@, ids)
    }

    fn is_quorum(&self, ids: &[K]) -> (r: bool) {
        proof {
            lemma_key_views(ids@);
        }
        let mut i: usize = 0;
        while i < self.len()
            invariant
                0 <= i <= self@.len(),
                view_set(ids@) == ids@.to_set(),
                forall|j: int| 0 <= j < i ==> majority_accepts(#[trigger] self@[j]@, ids@.to_set()),
            decreases self@.len() - i,
        {
            if !self[i].is_quorum(ids) {
                return false;
            }
            i = i + 1;
        }
        true
    }

    fn ids(&self) -> (r: Vec<K>)
        ensures
            ids_sorted(r@),
    {
        proof {
            lemma_keys_ordered::<K>();
        }
        let mut all: BTreeSet<K> = BTreeSet::new();
        let mut i: usize = 0;
        assert(all@ =~= joint_voters(self@.take(0)));
        while i < self.len()
            invariant
                0 <= i <= self@.len(),
                all@ == joint_voters(self@.take(i as int)),
            decreases self@.len() - i,
        {
            let ghost before = all@;
            let config = &self[i];
            proof {
                lemma_keys_ordered::<K>();
                lemma_btree_iter(config);
            }
            for id in it: config.iter()
                invariant
                    it.seq() == spec_btree_keys_iter(config).remaining(),
                    it.seq().unref().to_set() == config@,
                    all@ == before.union(it.seq().take(it.index() as int).unref().to_set()),
                    it.index() == it.seq().len() ==> all@ == before.union(config@),
            {
                let ghost k = it.index() as int;
                proof {
                    lemma_keys_ordered::<K>();
                }
                all.insert(*id);
                proof {
                    assert(it.seq().take(k + 1).unref() =~= it.seq().take(k).unref().push(*id));
                    it.seq().take(k).unref().lemma_push_to_set_commute(*id);
                    assert(all@ =~= before.union(it.seq().take(k + 1).unref().to_set()));
                    assert(k + 1 == it.seq().len() ==> it.seq().take(k + 1) =~= it.seq());
                }
            }
            proof {
                assert(self@.take(i + 1).drop_last() =~= self@.take(i as int));
                assert(self@.take(i + 1).last() == self@[i as int]);
            }
            i = i + 1;
            assert(all@ =~= joint_voters(self@.take(i as int)));
        }
        assert(self@.take(self@.len() as int) =~= self@);
        let out = all.ids();
        proof {
            lemma_key_views(out@);
        }
        out
    }

    proof fn lemma_upward_closed(&self, a: Set<K>, b: Set<K>) {
        assert forall|i: int| 0 <= i < self@.len() implies majority_accepts(#[trigger] self@[i]@, b) by {
            lemma_btree_set_finite(&self@[i]);
            lemma_majority_monotone(self@[i]@, a, b);
        }
    }

    proof fn lemma_closed_over_voters(&self, s: Set<K>) {
        let v = joint_voters(self@);
        assert forall|i: int| 0 <= i < self@.len() implies majority_accepts(#[trigger] self@[i]@, s)
            == majority_accepts(self@[i]@, s.intersect(v)) by {
            lemma_joint_voters_contain(self@, i);
            lemma_majority_agree(self@[i]@, v, s);
        }
    }

    proof fn lemma_voters_finite(&self) {
        lemma_joint_voters_finite(self@);
    }
}

} // verus!
