//! Progress tracking over a [`QuorumSet`].
//!
//! [`VecProgress`] stores per-node progress values and keeps the greatest
//! value accepted by the configured quorum set. Normal updates keep or raise
//! an entry's progress; the explicit reset may lower one without lowering the
//! recorded quorum-accepted value.

use vstd::prelude::*;
use crate::display_id::DisplayId;
use crate::entry::{id_val_text, IdVal, VecProgressEntry, VecProgressEntryData};
use crate::node_id::{
    contains_id, ids_sorted, insert_id_sorted, lemma_ids_sorted_no_duplicates, lemma_view_set_index, lemma_view_set_member,
    lemma_view_set_push, view_set, views, views_sorted, NodeId,
};
use crate::quorum_set::QuorumSet;
use crate::voter_order::{entry_at_view, pairs_view, VoterOrderError};

verus! {

/// The view of the node ID of an entry type.
pub type IdOf<E> = <<E as VecProgressEntry>::Id as View>::V;

broadcast use vstd::seq_lib::group_to_multiset_ensures;

// ---------------------------------------------------------------------------
// Specification helpers.

/// The IDs of a sequence of entries.
pub open spec fn entry_ids<E: VecProgressEntry>(s: Seq<E>) -> Seq<IdOf<E>> {
    s.map_values(|e: E| e.entry_id())
}

/// The IDs of the first `j` entries.
pub open spec fn prefix_ids<E: VecProgressEntry>(s: Seq<E>, j: int) -> Set<IdOf<E>> {
    entry_ids(s.take(j)).to_set()
}

/// The IDs of the entries whose progress is at least `p`.
pub open spec fn ids_at_least<E: VecProgressEntry>(s: Seq<E>, p: int) -> Set<IdOf<E>> {
    Set::new(|id: IdOf<E>| exists|i: int| 0 <= i < s.len() && #[trigger] s[i].entry_id() == id && s[i].entry_progress() >= p)
}

/// Some voter has progress `v`, and the voters with progress at least `v`
/// form a quorum.
pub open spec fn accepted_value<E: VecProgressEntry, QS: QuorumSet<Id = E::Id>>(qs: QS, voters: Seq<E>, v: u64) -> bool {
    exists|i: int| 0 <= i < voters.len() && #[trigger] voters[i].entry_progress() == v && qs.accepts(ids_at_least(voters, v as int))
}

/// No voter progress above `v` is accepted by a quorum.
pub open spec fn none_accepted_above<E: VecProgressEntry, QS: QuorumSet<Id = E::Id>>(qs: QS, voters: Seq<E>, v: u64) -> bool {
    forall|i: int|
        0 <= i < voters.len() && #[trigger] voters[i].entry_progress() > v ==> !qs.accepts(
            ids_at_least(voters, voters[i].entry_progress() as int),
        )
}

/// `v` is the greatest voter progress accepted by a quorum, or `0` when
/// there is none.
pub open spec fn is_greatest_accepted<E: VecProgressEntry, QS: QuorumSet<Id = E::Id>>(qs: QS, voters: Seq<E>, v: u64) -> bool {
    &&& none_accepted_above(qs, voters, v)
    &&& (accepted_value(qs, voters, v) || v == 0)
}

/// Voters whose progress is above `qa` come first, in descending order.
pub open spec fn sorted_above<E: VecProgressEntry>(s: Seq<E>, vc: int, qa: u64) -> bool {
    forall|i: int, j: int|
        0 <= i < j < vc && #[trigger] s[j].entry_progress() > qa ==> #[trigger] s[i].entry_progress()
            >= s[j].entry_progress()
}

/// No prefix of the voters that ends with a progress above `qa` is a quorum.
pub open spec fn prefixes_rejected<E: VecProgressEntry, QS: QuorumSet<Id = E::Id>>(qs: QS, s: Seq<E>, vc: int, qa: u64) -> bool {
    forall|j: int|
        0 < j <= vc && #[trigger] s[j - 1].entry_progress() > qa ==> !qs.accepts(prefix_ids(s, j))
}

/// Voters in descending progress order, ties in increasing ID order.
pub open spec fn fully_sorted<E: VecProgressEntry>(s: Seq<E>) -> bool {
    forall|i: int, j: int|
        0 <= i < j < s.len() ==> (#[trigger] s[i].entry_progress() > #[trigger] s[j].entry_progress() || (
        s[i].entry_progress() == s[j].entry_progress() && <E::Id as NodeId>::id_lt(s[i].entry_id(), s[j].entry_id())))
}

/// The invariant of a tracker state: IDs are unique, the first `vc` entries
/// are exactly the voters of `qs`, voters above `qa` form a descending
/// prefix, and no such prefix is a quorum.
pub open spec fn state_wf<E: VecProgressEntry, QS: QuorumSet<Id = E::Id>>(qs: QS, s: Seq<E>, vc: int, qa: u64) -> bool {
    &&& 0 <= vc <= s.len()
    &&& entry_ids(s).no_duplicates()
    &&& entry_ids(s.take(vc)).to_set() == qs.voters()
    &&& sorted_above(s, vc, qa)
    &&& prefixes_rejected(qs, s, vc, qa)
}

/// Tracks per-node progress and the greatest value accepted by a quorum.
///
/// Voters, the IDs of the quorum set, come first; learners follow and never
/// contribute to quorum acceptance. Voter entries whose progress is above the
/// quorum-accepted value are kept in descending order; the rest are not
/// sorted.
#[derive(Clone, Debug)]
pub struct VecProgress<Entry: VecProgressEntry, QS: QuorumSet<Id = Entry::Id>> {
    quorum_set: QS,
    quorum_accepted: u64,
    voter_count: usize,
    entries: Vec<Entry>,
}

impl<Entry: VecProgressEntry, QS: QuorumSet<Id = Entry::Id>> VecProgress<Entry, QS> {
    /// All entries, voters first.
    pub closed spec fn entries_spec(&self) -> Seq<Entry> {
        self.entries@
    }

    /// The number of voters.
    pub closed spec fn voter_count_spec(&self) -> nat {
        self.voter_count as nat
    }

    /// The recorded quorum-accepted value.
    pub closed spec fn quorum_accepted_spec(&self) -> u64 {
        self.quorum_accepted
    }

    /// The quorum set.
    pub closed spec fn quorum_set_spec(&self) -> QS {
        self.quorum_set
    }

    /// The voter entries.
    pub open spec fn voters_spec(&self) -> Seq<Entry> {
        self.entries_spec().take(self.voter_count_spec() as int)
    }

    /// Some entry among the voters has the ID `x`.
    pub open spec fn is_voter_at_some(&self, x: IdOf<Entry>) -> bool {
        exists|k: int|
            0 <= k < self.voter_count_spec() && k < self.entries_spec().len() && #[trigger] self.entries_spec()[k].entry_id()
                == x
    }

    /// How `x` is tracked: `Some(true)` as a voter, `Some(false)` as a
    /// learner, `None` not at all.
    pub open spec fn id_status(&self, x: IdOf<Entry>) -> Option<bool> {
        if self.is_voter_at_some(x) {
            Some(true)
        } else if entry_ids(self.entries_spec()).contains(x) {
            Some(false)
        } else {
            None
        }
    }

    /// The internal invariant: IDs are unique, the voters are exactly the
    /// IDs of the quorum set, voters above the quorum-accepted value form a
    /// descending prefix, and no such prefix is a quorum.
    pub closed spec fn wf(&self) -> bool {
        state_wf(self.quorum_set, self.entries@, self.voter_count as int, self.quorum_accepted)
    }
}

// ---------------------------------------------------------------------------
// Lemmas on the invariant.

/// The index of the last entry below `k` whose progress is at least `p`, or
/// `-1`.
pub open spec fn last_at_least<E: VecProgressEntry>(s: Seq<E>, k: int, p: int) -> int
    decreases k,
{
    if k <= 0 {
        -1
    } else if s[k - 1].entry_progress() >= p {
        k - 1
    } else {
        last_at_least(s, k - 1, p)
    }
}

proof fn lemma_last_at_least<E: VecProgressEntry>(s: Seq<E>, k: int, p: int, i: int)
    requires
        0 <= i < k <= s.len(),
        s[i].entry_progress() >= p,
    ensures
        i <= last_at_least(s, k, p) < k,
        s[last_at_least(s, k, p)].entry_progress() >= p,
        forall|m: int| last_at_least(s, k, p) < m < k ==> #[trigger] s[m].entry_progress() < p,
    decreases k,
{
    if s[k - 1].entry_progress() < p {
        lemma_last_at_least(s, k - 1, p, i);
    }
}

/// With sorted voters above `qa` and no such prefix a quorum, no voter
/// progress above `qa` is accepted.
proof fn lemma_rejected_prefixes_none_accepted<E: VecProgressEntry, QS: QuorumSet<Id = E::Id>>(
    qs: QS,
    s: Seq<E>,
    vc: int,
    qa: u64,
)
    requires
        0 <= vc <= s.len(),
        sorted_above(s, vc, qa),
        prefixes_rejected(qs, s, vc, qa),
    ensures
        none_accepted_above(qs, s.take(vc), qa),
{
    let voters = s.take(vc);
    assert forall|i: int| 0 <= i < voters.len() && #[trigger] voters[i].entry_progress() > qa implies !qs.accepts(
        ids_at_least(voters, voters[i].entry_progress() as int),
    ) by {
        let p = voters[i].entry_progress() as int;
        lemma_last_at_least(s, vc, p, i);
        let last = last_at_least(s, vc, p);
        assert(s[last].entry_progress() > qa);
        assert(s[(last + 1) - 1].entry_progress() > qa);
        let pre = prefix_ids(s, last + 1);
        assert(!qs.accepts(pre));
        assert(ids_at_least(voters, p).subset_of(pre)) by {
            assert forall|id: IdOf<E>| ids_at_least(voters, p).contains(id) implies pre.contains(id) by {
                let m = choose|m: int| 0 <= m < voters.len() && #[trigger] voters[m].entry_id() == id && voters[m].entry_progress() >= p;
                assert(voters[m] == s[m]);
                assert(m <= last);
                assert(s.take(last + 1)[m] == s[m]);
                assert(entry_ids(s.take(last + 1))[m] == id);
            }
        }
        if qs.accepts(ids_at_least(voters, p)) {
            qs.lemma_upward_closed(ids_at_least(voters, p), pre);
        }
    }
}

/// A prefix of voters whose earlier progress values are at least the last
/// one, `p`, holds only voters with progress at least `p`.
proof fn lemma_prefix_within_at_least<E: VecProgressEntry>(s: Seq<E>, vc: int, m: int)
    requires
        0 <= m < vc <= s.len(),
        forall|k: int| 0 <= k < m ==> #[trigger] s[k].entry_progress() >= s[m].entry_progress(),
    ensures
        prefix_ids(s, m + 1).subset_of(ids_at_least(s.take(vc), s[m].entry_progress() as int)),
{
    let voters = s.take(vc);
    let p = s[m].entry_progress() as int;
    assert forall|id: IdOf<E>| prefix_ids(s, m + 1).contains(id) implies ids_at_least(voters, p).contains(id) by {
        let e = entry_ids(s.take(m + 1));
        let k = choose|k: int| 0 <= k < e.len() && #[trigger] e[k] == id;
        assert(s.take(m + 1)[k] == s[k]);
        assert(voters[k] == s[k]);
        assert(voters[k].entry_id() == id && voters[k].entry_progress() >= p);
    }
}

impl<Entry: VecProgressEntry, QS: QuorumSet<Id = Entry::Id>> VecProgress<Entry, QS> {
    /// Every state of a tracker keeps these: IDs are unique, the voters are
    /// exactly the voter IDs of the quorum set, voters above the
    /// quorum-accepted value come first in descending order, and no voter
    /// progress above the quorum-accepted value is accepted by a quorum.
    pub proof fn lemma_wf_properties(&self)
        requires
            self.wf(),
        ensures
            self.voter_count_spec() <= self.entries_spec().len(),
            entry_ids(self.entries_spec()).no_duplicates(),
            entry_ids(self.voters_spec()).to_set() == self.quorum_set_spec().voters(),
            sorted_above(self.entries_spec(), self.voter_count_spec() as int, self.quorum_accepted_spec()),
            none_accepted_above(self.quorum_set_spec(), self.voters_spec(), self.quorum_accepted_spec()),
    {
        lemma_rejected_prefixes_none_accepted(
            self.quorum_set,
            self.entries@,
            self.voter_count as int,
            self.quorum_accepted,
        );
    }

    /// Finds the index of the entry with `id`.
    fn index(&self, id: &Entry::Id) -> (r: Option<usize>)
        ensures
            match r {
                Some(i) => i < self.entries@.len() && self.entries@[i as int].entry_id() == id@ && forall|k: int|
                    0 <= k < i ==> #[trigger] self.entries@[k].entry_id() != id@,
                None => !entry_ids(self.entries@).contains(id@),
            },
    {
        let mut i: usize = 0;
        while i < self.entries.len()
            invariant
                0 <= i <= self.entries@.len(),
                forall|k: int| 0 <= k < i ==> #[trigger] self.entries@[k].entry_id() != id@,
            decreases self.entries@.len() - i,
        {
            if self.entries[i].id().compare_id(id) == 0 {
                return Some(i);
            }
            i = i + 1;
        }
        proof {
            if entry_ids(self.entries@).contains(id@) {
                let e = entry_ids(self.entries@);
                let k = choose|k: int| 0 <= k < e.len() && #[trigger] e[k] == id@;
                assert(self.entries@[k].entry_id() == id@);
            }
        }
        None
    }

    /// The entry tracked for `id`, if any.
    pub fn try_get(&self, id: &Entry::Id) -> (r: Option<&Entry>)
        ensures
            match r {
                Some(e) => entry_ids(self.entries_spec()).contains(id@) && e.entry_id() == id@
                    && self.entries_spec().contains(*e),
                None => !entry_ids(self.entries_spec()).contains(id@),
            },
    {
        match self.index(id) {
            Some(i) => {
                proof {
                    assert(entry_ids(self.entries@)[i as int] == id@);
                }
                Some(&self.entries[i])
            },
            None => None,
        }
    }

    /// Whether `id` is a voter; `None` when `id` is not tracked.
    pub fn is_voter(&self, id: &Entry::Id) -> (r: Option<bool>)
        ensures
            r == self.id_status(id@),
    {
        match self.index(id) {
            Some(i) => {
                proof {
                    let ids = entry_ids(self.entries@);
                    assert(ids[i as int] == id@);
                    if i >= self.voter_count && self.is_voter_at_some(id@) {
                        let k = choose|k: int|
                            0 <= k < self.voter_count_spec() && k < self.entries_spec().len()
                                && #[trigger] self.entries_spec()[k].entry_id() == id@;
                        assert(k < i);
                    }
                }
                Some(i < self.voter_count)
            },
            None => {
                proof {
                    if self.is_voter_at_some(id@) {
                        let k = choose|k: int|
                            0 <= k < self.voter_count_spec() && k < self.entries_spec().len()
                                && #[trigger] self.entries_spec()[k].entry_id() == id@;
                        assert(entry_ids(self.entries@)[k] == id@);
                    }
                }
                None
            },
        }
    }

    /// The greatest progress value accepted by the quorum set, or `0` when
    /// none has been accepted.
    pub fn quorum_accepted(&self) -> (r: &u64)
        ensures
            *r == self.quorum_accepted_spec(),
    {
        &self.quorum_accepted
    }

    /// The quorum set that decides which entries constitute a quorum.
    pub fn quorum_set(&self) -> (r: &QS)
        ensures
            *r == self.quorum_set_spec(),
    {
        &self.quorum_set
    }

    /// The number of voter entries; [`VecProgress::iter`] yields them first.
    pub fn voter_count(&self) -> (r: usize)
        ensures
            r == self.voter_count_spec(),
    {
        self.voter_count
    }

    /// All entries, voters first and learners after them.
    pub fn iter(&self) -> (r: &[Entry])
        ensures
            r@ == self.entries_spec(),
    {
        self.entries.as_slice()
    }
}

/// How an ID is tracked by a tracker made for `voters` and `learners`: a
/// voter, else a learner, else not at all.
pub open spec fn status_in<V>(voters: Set<V>, learners: Set<V>, x: V) -> Option<bool> {
    if voters.contains(x) {
        Some(true)
    } else if learners.contains(x) {
        Some(false)
    } else {
        None
    }
}

impl<Entry: VecProgressEntry, QS: QuorumSet<Id = Entry::Id>> VecProgress<Entry, QS> {
    /// Some voter has the ID `x` exactly when `x` is among the voter IDs.
    proof fn lemma_voter_at_some(&self, x: IdOf<Entry>)
        requires
            self.voter_count_spec() <= self.entries_spec().len(),
        ensures
            self.is_voter_at_some(x) == entry_ids(self.voters_spec()).to_set().contains(x),
    {
        let s = self.entries_spec();
        let vc = self.voter_count_spec() as int;
        if self.is_voter_at_some(x) {
            let k = choose|k: int| 0 <= k < vc && k < s.len() && #[trigger] s[k].entry_id() == x;
            assert(entry_ids(s.take(vc))[k] == x);
        }
        if entry_ids(s.take(vc)).to_set().contains(x) {
            let k = choose|k: int| 0 <= k < vc && #[trigger] entry_ids(s.take(vc))[k] == x;
            assert(s[k].entry_id() == x);
        }
    }

    /// An ID has a status exactly when some entry has it.
    proof fn lemma_tracked(&self, x: IdOf<Entry>)
        ensures
            self.id_status(x) is Some <==> entry_ids(self.entries_spec()).contains(x),
    {
        if self.is_voter_at_some(x) {
            let k = choose|k: int|
                0 <= k < self.voter_count_spec() && k < self.entries_spec().len() && #[trigger] self.entries_spec()[k].entry_id()
                    == x;
            assert(entry_ids(self.entries_spec())[k] == x);
        }
    }

    /// Two trackers with the same voter IDs and the same tracked IDs track
    /// every ID in the same way.
    proof fn lemma_status_kept(post: &Self, pre: &Self)
        requires
            post.voter_count_spec() <= post.entries_spec().len(),
            pre.voter_count_spec() <= pre.entries_spec().len(),
            entry_ids(post.voters_spec()).to_set() == entry_ids(pre.voters_spec()).to_set(),
            entry_ids(post.entries_spec()).to_set() == entry_ids(pre.entries_spec()).to_set(),
        ensures
            forall|x: IdOf<Entry>| #[trigger] post.id_status(x) == pre.id_status(x),
    {
        assert forall|x: IdOf<Entry>| #[trigger] post.id_status(x) == pre.id_status(x) by {
            post.lemma_voter_at_some(x);
            pre.lemma_voter_at_some(x);
            assert(entry_ids(post.entries_spec()).contains(x) == entry_ids(post.entries_spec()).to_set().contains(x));
            assert(entry_ids(pre.entries_spec()).contains(x) == entry_ids(pre.entries_spec()).to_set().contains(x));
        }
    }

    /// The status of an ID follows from the ID sets of the voters and of
    /// the learners.
    proof fn lemma_status_from_sets(&self, voters: Set<IdOf<Entry>>, learners: Set<IdOf<Entry>>)
        requires
            self.voter_count_spec() <= self.entries_spec().len(),
            entry_ids(self.voters_spec()).to_set() == voters,
            entry_ids(self.entries_spec().skip(self.voter_count_spec() as int)).to_set() == learners.difference(voters),
        ensures
            forall|x: IdOf<Entry>| #[trigger] self.id_status(x) == status_in(voters, learners, x),
    {
        let s = self.entries_spec();
        let vc = self.voter_count_spec() as int;
        assert forall|x: IdOf<Entry>| #[trigger] self.id_status(x) == status_in(voters, learners, x) by {
            if self.is_voter_at_some(x) {
                let k = choose|k: int| 0 <= k < vc && k < s.len() && #[trigger] s[k].entry_id() == x;
                assert(entry_ids(s.take(vc))[k] == x);
                assert(entry_ids(s.take(vc)).to_set().contains(x));
            }
            if voters.contains(x) {
                let k = choose|k: int| 0 <= k < vc && #[trigger] entry_ids(s.take(vc))[k] == x;
                assert(s[k].entry_id() == x);
            }
            if !voters.contains(x) {
                if entry_ids(s).contains(x) {
                    let k = choose|k: int| 0 <= k < s.len() && #[trigger] entry_ids(s)[k] == x;
                    if k < vc {
                        assert(entry_ids(s.take(vc))[k] == x);
                        assert(entry_ids(s.take(vc)).to_set().contains(x));
                    } else {
                        assert(entry_ids(s.skip(vc))[k - vc] == x);
                        assert(entry_ids(s.skip(vc)).to_set().contains(x));
                    }
                }
                if learners.contains(x) {
                    assert(entry_ids(s.skip(vc)).to_set().contains(x));
                    let k = choose|k: int| 0 <= k < s.len() - vc && #[trigger] entry_ids(s.skip(vc))[k] == x;
                    assert(entry_ids(s)[k + vc] == x);
                }
            }
        }
    }
}

// ---------------------------------------------------------------------------
// Construction.

/// `e` is the entry of `id` in `pool`, when `pool` holds one, and otherwise an
/// entry that `default_entry` returns for `id`.
pub open spec fn entry_for<E: VecProgressEntry, F: Fn(E::Id) -> E>(
    pool: Seq<E>,
    default_entry: F,
    id: IdOf<E>,
    e: E,
) -> bool {
    if entry_ids(pool).contains(id) {
        pool.contains(e) && e.entry_id() == id
    } else {
        exists|x: E::Id| x@ == id && #[trigger] default_entry.ensures((x,), e)
    }
}

/// `default_entry` returns `e` for the ID of `e`.
pub open spec fn made_by<E: VecProgressEntry, F: Fn(E::Id) -> E>(default_entry: F, e: E) -> bool {
    exists|x: E::Id| x@ == e.entry_id() && #[trigger] default_entry.ensures((x,), e)
}

/// Takes the entry of `id` out of `pool`, or makes one with `default_entry`.
fn take_or_make<E: VecProgressEntry, F: Fn(E::Id) -> E>(pool: &mut Vec<E>, id: &E::Id, default_entry: &F) -> (r: E)
    requires
        forall|i: E::Id| default_entry.requires((i,)),
        forall|i: E::Id, e: E| default_entry.ensures((i,), e) ==> e.entry_id() == i@,
        entry_ids(old(pool)@).no_duplicates(),
    ensures
        r.entry_id() == id@,
        entry_for(old(pool)@, *default_entry, id@, r),
        entry_ids(final(pool)@).no_duplicates(),
        entry_ids(final(pool)@).to_set() == entry_ids(old(pool)@).to_set().remove(id@),
        forall|e: E| #[trigger] final(pool)@.contains(e) ==> old(pool)@.contains(e),
{
    let mut k: usize = 0;
    while k < pool.len()
        invariant
            0 <= k <= pool@.len(),
            pool@ == old(pool)@,
            entry_ids(pool@).no_duplicates(),
            forall|m: int| 0 <= m < k ==> #[trigger] pool@[m].entry_id() != id@,
        decreases pool@.len() - k,
    {
        if pool[k].id().compare_id(id) == 0 {
            let ghost before = pool@;
            let e = pool.remove(k);
            proof {
                assert(entry_ids(before)[k as int] == id@);
                assert(entry_ids(pool@) =~= entry_ids(before).remove(k as int));
                assert forall|a: int, b: int| 0 <= a < b < entry_ids(pool@).len() implies entry_ids(pool@)[a]
                    != entry_ids(pool@)[b] by {
                    let a2 = if a < k { a } else { a + 1 };
                    let b2 = if b < k { b } else { b + 1 };
                    assert(entry_ids(before)[a2] != entry_ids(before)[b2]);
                }
                assert forall|x: IdOf<E>| entry_ids(pool@).to_set().contains(x) <==> entry_ids(before).to_set().remove(id@).contains(x) by {
                    if entry_ids(pool@).to_set().contains(x) {
                        let m = choose|m: int| 0 <= m < entry_ids(pool@).len() && #[trigger] entry_ids(pool@)[m] == x;
                        let m2 = if m < k { m } else { m + 1 };
                        assert(entry_ids(before)[m2] == x);
                        assert(x != id@);
                    }
                    if entry_ids(before).to_set().remove(id@).contains(x) {
                        let m = choose|m: int| 0 <= m < entry_ids(before).len() && #[trigger] entry_ids(before)[m] == x;
                        assert(m != k);
                        let m2 = if m < k { m } else { m - 1 };
                        assert(entry_ids(pool@)[m2] == x);
                    }
                }
                assert(entry_ids(pool@).to_set() =~= entry_ids(before).to_set().remove(id@));
                assert forall|e2: E| #[trigger] pool@.contains(e2) implies before.contains(e2) by {
                    let m = choose|m: int| 0 <= m < pool@.len() && pool@[m] == e2;
                    let m2 = if m < k { m } else { m + 1 };
                    assert(before[m2] == e2);
                }
                assert(before.contains(e));
                assert(entry_ids(before).contains(id@));
            }
            return e;
        }
        k = k + 1;
    }
    proof {
        if entry_ids(pool@).contains(id@) {
            let e = entry_ids(pool@);
            let m = choose|m: int| 0 <= m < e.len() && #[trigger] e[m] == id@;
            assert(pool@[m].entry_id() == id@);
        }
        assert(entry_ids(pool@).to_set() =~= entry_ids(pool@).to_set().remove(id@));
    }
    let c = id.copy_id();
    let r = default_entry(c);
    proof {
        assert(c@ == id@ && default_entry.ensures((c,), r));
    }
    r
}

/// Inserts `e` among voters sorted by descending progress, after every voter
/// with the same or a greater progress.
fn insert_by_progress<E: VecProgressEntry>(v: &mut Vec<E>, e: E)
    requires
        fully_sorted(old(v)@),
        entry_ids(old(v)@).no_duplicates(),
        forall|i: int| 0 <= i < old(v)@.len() ==> <E::Id as NodeId>::id_lt(#[trigger] old(v)@[i].entry_id(), e.entry_id()),
    ensures
        fully_sorted(final(v)@),
        entry_ids(final(v)@).no_duplicates(),
        forall|x: E| #[trigger] final(v)@.contains(x) ==> old(v)@.contains(x) || x == e,
        final(v)@.to_multiset() == old(v)@.to_multiset().insert(e),
        final(v)@.len() == old(v)@.len() + 1,
        entry_ids(final(v)@).to_set() == entry_ids(old(v)@).to_set().insert(e.entry_id()),
{
    let p = *e.progress();
    let mut m: usize = 0;
    while m < v.len() && *v[m].progress() >= p
        invariant
            0 <= m <= v@.len(),
            v@ == old(v)@,
            forall|k: int| 0 <= k < m ==> #[trigger] v@[k].entry_progress() >= p,
        decreases v@.len() - m,
    {
        m = m + 1;
    }
    let ghost before = v@;
    v.insert(m, e);
    proof {
        assert forall|a: int, b: int| 0 <= a < b < v@.len() implies (#[trigger] v@[a].entry_progress()
            > #[trigger] v@[b].entry_progress() || (v@[a].entry_progress() == v@[b].entry_progress()
            && <E::Id as NodeId>::id_lt(v@[a].entry_id(), v@[b].entry_id()))) by {
            if b < m {
                assert(v@[a] == before[a] && v@[b] == before[b]);
            } else if b == m {
                assert(v@[a] == before[a]);
            } else if a < m {
                assert(v@[a] == before[a] && v@[b] == before[b - 1]);
            } else if a == m {
                assert(v@[b] == before[b - 1]);
                assert(before[m as int].entry_progress() < p);
                if b - 1 > m {
                    assert(before[m as int].entry_progress() > before[b - 1].entry_progress() || before[m as int].entry_progress() == before[b - 1].entry_progress());
                }
            } else {
                assert(v@[a] == before[a - 1] && v@[b] == before[b - 1]);
            }
        }
        assert(entry_ids(v@) =~= entry_ids(before).insert(m as int, e.entry_id()));
        assert forall|x: IdOf<E>| entry_ids(v@).to_set().contains(x) <==> entry_ids(before).to_set().insert(e.entry_id()).contains(x) by {
            let ev = entry_ids(v@);
            let eb = entry_ids(before);
            if ev.to_set().contains(x) {
                let k = choose|k: int| 0 <= k < ev.len() && #[trigger] ev[k] == x;
                if k < m {
                    assert(eb[k] == x);
                } else if k > m {
                    assert(eb[k - 1] == x);
                }
            }
            if eb.to_set().contains(x) {
                let k = choose|k: int| 0 <= k < eb.len() && #[trigger] eb[k] == x;
                if k < m {
                    assert(ev[k] == x);
                } else {
                    assert(ev[k + 1] == x);
                }
            }
            if x == e.entry_id() {
                assert(ev[m as int] == x);
            }
        }
        assert(entry_ids(v@).to_set() =~= entry_ids(before).to_set().insert(e.entry_id()));
        assert forall|a: int, b: int| 0 <= a < b < entry_ids(v@).len() implies entry_ids(v@)[a] != entry_ids(v@)[b] by {
            let ev = entry_ids(v@);
            let eb = entry_ids(before);
            if a != m && b != m {
                let a2 = if a < m { a } else { a - 1 };
                let b2 = if b < m { b } else { b - 1 };
                assert(eb[a2] != eb[b2]);
            } else if a == m {
                let b2 = b - 1;
                assert(<E::Id as NodeId>::id_lt(before[b2].entry_id(), e.entry_id()));
                <E::Id as NodeId>::lemma_id_order(before[b2].entry_id(), e.entry_id());
            } else {
                assert(<E::Id as NodeId>::id_lt(before[a].entry_id(), e.entry_id()));
                <E::Id as NodeId>::lemma_id_order(before[a].entry_id(), e.entry_id());
            }
        }
        assert forall|x: E| #[trigger] v@.contains(x) implies before.contains(x) || x == e by {
            let k = choose|k: int| 0 <= k < v@.len() && v@[k] == x;
            if k < m {
                assert(before[k] == x);
            } else if k > m {
                assert(before[k - 1] == x);
            }
        }
    }
}

proof fn lemma_contains_id<E: VecProgressEntry>(s: Seq<E>, e: E)
    requires
        s.contains(e),
    ensures
        entry_ids(s).contains(e.entry_id()),
{
    let k = choose|k: int| 0 <= k < s.len() && s[k] == e;
    assert(entry_ids(s)[k] == e.entry_id());
}

proof fn lemma_no_dup_concat<T>(a: Seq<T>, b: Seq<T>)
    requires
        a.no_duplicates(),
        b.no_duplicates(),
        forall|x: T| a.contains(x) ==> !b.contains(x),
    ensures
        (a + b).no_duplicates(),
{
    assert forall|i: int, j: int| 0 <= i < j < (a + b).len() implies (a + b)[i] != (a + b)[j] by {
        if i < a.len() && j >= a.len() {
            assert(a.contains(a[i]));
            assert(b[j - a.len()] == (a + b)[j]);
            assert(b.contains((a + b)[j]));
        }
        if i >= a.len() {
            assert((a + b)[i] == b[i - a.len()]);
            assert((a + b)[j] == b[j - a.len()]);
        }
    }
}

impl<Entry: VecProgressEntry, QS: QuorumSet<Id = Entry::Id>> VecProgress<Entry, QS> {
    /// Builds a tracker for `quorum_set`: voters from its IDs, then learners;
    /// entries come out of `pool` when it holds one for the ID, and from
    /// `default_entry` otherwise.
    fn build<F: Fn(Entry::Id) -> Entry>(
        quorum_set: QS,
        learner_ids: Vec<Entry::Id>,
        pool: Vec<Entry>,
        default_entry: F,
    ) -> (r: Self)
        requires
            forall|i: Entry::Id| default_entry.requires((i,)),
            forall|i: Entry::Id, e: Entry| default_entry.ensures((i,), e) ==> e.entry_id() == i@,
            entry_ids(pool@).no_duplicates(),
        ensures
            r.wf(),
            r.quorum_set_spec() == quorum_set,
            fully_sorted(r.voters_spec()),
            views_sorted::<Entry::Id>(entry_ids(r.entries_spec().skip(r.voter_count_spec() as int))),
            entry_ids(r.entries_spec().skip(r.voter_count_spec() as int)).to_set() == view_set(learner_ids@).difference(
                quorum_set.voters(),
            ),
            forall|i: int|
                0 <= i < r.entries_spec().len() ==> entry_for(
                    pool@,
                    default_entry,
                    #[trigger] r.entries_spec()[i].entry_id(),
                    r.entries_spec()[i],
                ),
            is_greatest_accepted(quorum_set, r.voters_spec(), r.quorum_accepted_spec()),
    {
        let listed = quorum_set.ids();
        let mut voter_ids: Vec<Entry::Id> = Vec::new();
        let mut n: usize = 0;
        while n < listed.len()
            invariant
                0 <= n <= listed@.len(),
                ids_sorted(voter_ids@),
                view_set(voter_ids@) == view_set(listed@.take(n as int)),
            decreases listed@.len() - n,
        {
            insert_id_sorted(&mut voter_ids, &listed[n]);
            proof {
                assert(listed@.take(n + 1) =~= listed@.take(n as int).push(listed@[n as int]));
                lemma_view_set_push(listed@.take(n as int), listed@[n as int]);
            }
            n = n + 1;
        }
        assert(listed@.take(listed@.len() as int) =~= listed@);
        let ghost orig = pool@;
        let mut learners: Vec<Entry::Id> = Vec::new();
        let mut li: usize = 0;
        while li < learner_ids.len()
            invariant
                0 <= li <= learner_ids@.len(),
                ids_sorted(learners@),
                view_set(voter_ids@) == quorum_set.voters(),
                view_set(learners@) == view_set(learner_ids@.take(li as int)).difference(quorum_set.voters()),
            decreases learner_ids@.len() - li,
        {
            let id = &learner_ids[li];
            if !contains_id(voter_ids.as_slice(), id) {
                insert_id_sorted(&mut learners, id);
            }
            proof {
                assert(learner_ids@.take(li + 1) =~= learner_ids@.take(li as int).push(*id));
                lemma_view_set_push(learner_ids@.take(li as int), *id);
            }
            li = li + 1;
            assert(view_set(learners@) =~= view_set(learner_ids@.take(li as int)).difference(quorum_set.voters()));
        }
        assert(learner_ids@.take(learner_ids@.len() as int) =~= learner_ids@);
        let mut pool = pool;
        let mut voters: Vec<Entry> = Vec::new();
        let mut vi: usize = 0;
        while vi < voter_ids.len()
            invariant
                0 <= vi <= voter_ids@.len(),
                ids_sorted(voter_ids@),
                forall|i: Entry::Id| default_entry.requires((i,)),
                forall|i: Entry::Id, e: Entry| default_entry.ensures((i,), e) ==> e.entry_id() == i@,
                fully_sorted(voters@),
                voters@.len() == vi,
                entry_ids(voters@).no_duplicates(),
                entry_ids(voters@).to_set() == view_set(voter_ids@.take(vi as int)),
                entry_ids(pool@).no_duplicates(),
                entry_ids(pool@).to_set() == entry_ids(orig).to_set().difference(view_set(voter_ids@.take(vi as int))),
                forall|e: Entry| #[trigger] pool@.contains(e) ==> orig.contains(e),
                forall|i: int| 0 <= i < voters@.len() ==> entry_for(
                    orig,
                    default_entry,
                    #[trigger] voters@[i].entry_id(),
                    voters@[i],
                ),
            decreases voter_ids@.len() - vi,
        {
            let ghost id = voter_ids@[vi as int]@;
            let ghost before_pool = pool@;
            let e = take_or_make(&mut pool, &voter_ids[vi], &default_entry);
            proof {
                let taken = voter_ids@.take(vi as int);
                assert forall|i: int| 0 <= i < voters@.len() implies <Entry::Id as NodeId>::id_lt(
                    #[trigger] voters@[i].entry_id(),
                    id,
                ) by {
                    assert(entry_ids(voters@)[i] == voters@[i].entry_id());
                    assert(entry_ids(voters@).to_set().contains(voters@[i].entry_id()));
                    let k = lemma_view_set_member(taken, voters@[i].entry_id());
                    assert(taken[k] == voter_ids@[k]);
                }
                // The entry was taken from the given pool, or made when the
                // given pool has no entry for `id`.
                if entry_ids(before_pool).contains(id) {
                    assert(orig.contains(e));
                    lemma_contains_id(orig, e);
                } else {
                    if entry_ids(orig).contains(id) {
                        assert(entry_ids(orig).to_set().contains(id));
                        assert(!view_set(taken).contains(id)) by {
                            if view_set(taken).contains(id) {
                                let k = lemma_view_set_member(taken, id);
                                assert(taken[k] == voter_ids@[k]);
                                <Entry::Id as NodeId>::lemma_id_order(voter_ids@[k]@, id);
                            }
                        }
                        assert(entry_ids(before_pool).to_set().contains(id));
                    }
                }
                assert(entry_for(orig, default_entry, id, e));
            }
            let ghost before_voters = voters@;
            insert_by_progress(&mut voters, e);
            proof {
                assert(voter_ids@.take(vi + 1) =~= voter_ids@.take(vi as int).push(voter_ids@[vi as int]));
                lemma_view_set_push(voter_ids@.take(vi as int), voter_ids@[vi as int]);
                assert(entry_ids(pool@).to_set() =~= entry_ids(orig).to_set().difference(view_set(voter_ids@.take(vi + 1))));
                assert forall|i: int| 0 <= i < voters@.len() implies entry_for(
                    orig,
                    default_entry,
                    #[trigger] voters@[i].entry_id(),
                    voters@[i],
                ) by {
                    assert(voters@.contains(voters@[i]));
                    if before_voters.contains(voters@[i]) {
                        let k = choose|k: int| 0 <= k < before_voters.len() && before_voters[k] == voters@[i];
                        assert(entry_for(orig, default_entry, before_voters[k].entry_id(), before_voters[k]));
                    }
                }
            }
            vi = vi + 1;
        }
        assert(voter_ids@.take(voter_ids@.len() as int) =~= voter_ids@);
        let vc = voters.len();
        // The greatest progress whose voters form a quorum.
        let mut qa: u64 = 0;
        let mut prefix: Vec<Entry::Id> = Vec::new();
        let mut i: usize = 0;
        let mut found = false;
        while i < vc
            invariant_except_break
                !found,
                qa == 0,
                views(prefix@) == entry_ids(voters@.take(i as int)),
            invariant
                0 <= i <= vc,
                vc == voters@.len(),
                forall|j: int| 0 < j <= i ==> !quorum_set.accepts(#[trigger] prefix_ids(voters@, j)),
            ensures
                found ==> i < vc && qa == voters@[i as int].entry_progress() && quorum_set.accepts(
                    prefix_ids(voters@, i + 1),
                ),
                found ==> forall|j: int| 0 < j <= i ==> !quorum_set.accepts(#[trigger] prefix_ids(voters@, j)),
                !found ==> qa == 0 && forall|j: int| 0 < j <= vc ==> !quorum_set.accepts(
                    #[trigger] prefix_ids(voters@, j),
                ),
            decreases vc - i,
        {
            let ghost before = prefix@;
            prefix.push(voters[i].id().copy_id());
            proof {
                lemma_view_set_push(before, prefix@.last());
                assert(prefix@ == before.push(prefix@.last()));
                assert(views(prefix@) =~= entry_ids(voters@.take(i + 1)));
                assert(view_set(prefix@) == prefix_ids(voters@, i + 1));
            }
            if quorum_set.is_quorum(prefix.as_slice()) {
                qa = *voters[i].progress();
                found = true;
                break;
            }
            i = i + 1;
        }
        // Learners follow the voters.
        let mut entries = voters;
        let ghost vs = entries@;
        let mut k: usize = 0;
        while k < learners.len()
            invariant
                0 <= k <= learners@.len(),
                ids_sorted(learners@),
                view_set(learners@) == view_set(learner_ids@).difference(quorum_set.voters()),
                view_set(voter_ids@) == quorum_set.voters(),
                forall|i: Entry::Id| default_entry.requires((i,)),
                forall|i: Entry::Id, e: Entry| default_entry.ensures((i,), e) ==> e.entry_id() == i@,
                entries@.len() == vc + k,
                entries@.take(vc as int) == vs,
                entry_ids(entries@.skip(vc as int)) == views(learners@.take(k as int)),
                entry_ids(pool@).no_duplicates(),
                entry_ids(pool@).to_set() == entry_ids(orig).to_set().difference(view_set(voter_ids@)).difference(
                    view_set(learners@.take(k as int)),
                ),
                forall|e: Entry| #[trigger] pool@.contains(e) ==> orig.contains(e),
                forall|i: int| 0 <= i < entries@.len() ==> entry_for(
                    orig,
                    default_entry,
                    #[trigger] entries@[i].entry_id(),
                    entries@[i],
                ),
            decreases learners@.len() - k,
        {
            let ghost id = learners@[k as int]@;
            let ghost before_pool = pool@;
            let e = take_or_make(&mut pool, &learners[k], &default_entry);
            proof {
                let taken = learners@.take(k as int);
                if entry_ids(before_pool).contains(id) {
                    assert(orig.contains(e));
                    lemma_contains_id(orig, e);
                } else if entry_ids(orig).contains(id) {
                    lemma_view_set_index(learners@, k as int);
                    assert(!view_set(voter_ids@).contains(id));
                    assert(!view_set(taken).contains(id)) by {
                        if view_set(taken).contains(id) {
                            let m = lemma_view_set_member(taken, id);
                            assert(taken[m] == learners@[m]);
                            <Entry::Id as NodeId>::lemma_id_order(learners@[m]@, id);
                        }
                    }
                    assert(entry_ids(orig).to_set().contains(id));
                    assert(entry_ids(before_pool).to_set().contains(id));
                }
                assert(entry_for(orig, default_entry, id, e));
            }
            let ghost before = entries@;
            entries.push(e);
            proof {
                assert(entries@.take(vc as int) =~= before.take(vc as int));
                assert(entry_ids(entries@.skip(vc as int)) =~= entry_ids(before.skip(vc as int)).push(id));
                assert(learners@.take(k + 1) =~= learners@.take(k as int).push(learners@[k as int]));
                lemma_view_set_push(learners@.take(k as int), learners@[k as int]);
                assert(entry_ids(pool@).to_set() =~= entry_ids(orig).to_set().difference(view_set(voter_ids@)).difference(
                    view_set(learners@.take(k + 1)),
                ));
                assert forall|i: int| 0 <= i < entries@.len() implies entry_for(
                    orig,
                    default_entry,
                    #[trigger] entries@[i].entry_id(),
                    entries@[i],
                ) by {
                    if i < before.len() {
                        assert(entries@[i] == before[i]);
                    }
                }
            }
            k = k + 1;
        }
        let r = VecProgress { quorum_set, quorum_accepted: qa, voter_count: vc, entries };
        proof {
            let es = r.entries@;
            let lv = views(learners@);
            assert(learners@.take(learners@.len() as int) =~= learners@);
            assert(es.take(vc as int) == vs);
            assert(es =~= es.take(vc as int) + es.skip(vc as int));
            assert(entry_ids(es) =~= entry_ids(vs) + lv);
            assert(entry_ids(vs).to_set() == view_set(voter_ids@));
            assert forall|x: IdOf<Entry>| entry_ids(vs).contains(x) implies !lv.contains(x) by {
                assert(entry_ids(vs).to_set().contains(x));
                if lv.contains(x) {
                    assert(lv.to_set().contains(x));
                }
            }
            lemma_ids_sorted_no_duplicates(learners@);
            lemma_no_dup_concat(entry_ids(vs), lv);
            assert forall|a: int, b: int| 0 <= a < b < lv.len() implies <Entry::Id as NodeId>::id_lt(
                #[trigger] lv[a],
                #[trigger] lv[b],
            ) by {
                assert(lv[a] == learners@[a]@ && lv[b] == learners@[b]@);
            }
            // Fully sorted voters satisfy every ordering invariant.
            assert forall|a: int, b: int| 0 <= a < b < vc && #[trigger] es[b].entry_progress() > qa implies #[trigger] es[a].entry_progress()
                >= es[b].entry_progress() by {
                assert(es[a] == vs[a] && es[b] == vs[b]);
            }
            assert forall|j: int| 0 < j <= vc && #[trigger] es[j - 1].entry_progress() > qa implies !quorum_set.accepts(
                prefix_ids(es, j),
            ) by {
                assert(es.take(j) =~= vs.take(j));
                assert(prefix_ids(es, j) == prefix_ids(vs, j));
                if found {
                    if j > i {
                        assert(vs[j - 1].entry_progress() <= vs[i as int].entry_progress()) by {
                            if j - 1 > i {
                                assert(vs[i as int].entry_progress() > vs[j - 1].entry_progress() || vs[i as int].entry_progress() == vs[j - 1].entry_progress());
                            }
                        }
                    }
                }
            }
            assert(r.voters_spec() == vs);
            lemma_rejected_prefixes_none_accepted(quorum_set, es, vc as int, qa);
            if found {
                assert(es.take(i + 1) =~= vs.take(i + 1));
                assert forall|k: int| 0 <= k < i implies #[trigger] es[k].entry_progress() >= es[i as int].entry_progress() by {
                    assert(es[k] == vs[k] && es[i as int] == vs[i as int]);
                }
                lemma_prefix_within_at_least(es, vc as int, i as int);
                quorum_set.lemma_upward_closed(prefix_ids(vs, i + 1), ids_at_least(vs, qa as int));
                assert(vs[i as int].entry_progress() == qa);
                assert(accepted_value(quorum_set, vs, qa));
            }
        }
        r
    }
}

impl<Entry: VecProgressEntry, QS: QuorumSet<Id = Entry::Id>> VecProgress<Entry, QS> {
    /// Creates a tracker from a quorum set and learner IDs.
    ///
    /// Voters are the IDs of `quorum_set`; learners follow them and never
    /// contribute to quorum acceptance. Every ID is tracked once: a learner ID
    /// that is also a voter is a voter, and repeated IDs are ignored.
    /// `default_entry` builds the entry of every ID; voters are ordered by
    /// descending progress, ties by increasing ID, learners by increasing ID,
    /// and the quorum-accepted value is computed from the initial voter
    /// progress.
    pub fn new<F: Fn(Entry::Id) -> Entry>(quorum_set: QS, learner_ids: Vec<Entry::Id>, default_entry: F) -> (r: Self)
        requires
            forall|i: Entry::Id| default_entry.requires((i,)),
            forall|i: Entry::Id, e: Entry| default_entry.ensures((i,), e) ==> e.entry_id() == i@,
        ensures
            r.wf(),
            r.quorum_set_spec() == quorum_set,
            entry_ids(r.voters_spec()).to_set() == quorum_set.voters(),
            fully_sorted(r.voters_spec()),
            views_sorted::<Entry::Id>(entry_ids(r.entries_spec().skip(r.voter_count_spec() as int))),
            entry_ids(r.entries_spec().skip(r.voter_count_spec() as int)).to_set() == view_set(learner_ids@).difference(
                quorum_set.voters(),
            ),
            forall|i: int| 0 <= i < r.entries_spec().len() ==> made_by(default_entry, #[trigger] r.entries_spec()[i]),
            is_greatest_accepted(quorum_set, r.voters_spec(), r.quorum_accepted_spec()),
            forall|x: IdOf<Entry>| #[trigger] r.id_status(x) == status_in(quorum_set.voters(), view_set(learner_ids@), x),
    {
        let ghost learners = view_set(learner_ids@);
        let pool: Vec<Entry> = Vec::new();
        let r = Self::build(quorum_set, learner_ids, pool, default_entry);
        proof {
            r.lemma_wf_properties();
            r.lemma_status_from_sets(quorum_set.voters(), learners);
            assert forall|i: int| 0 <= i < r.entries_spec().len() implies made_by(default_entry, #[trigger] r.entries_spec()[i]) by {
                assert(!entry_ids(Seq::<Entry>::empty()).contains(r.entries_spec()[i].entry_id()));
                assert(entry_for(Seq::<Entry>::empty(), default_entry, r.entries_spec()[i].entry_id(), r.entries_spec()[i]));
            }
        }
        r
    }

    /// Builds a tracker for a new quorum set, keeping the entries of IDs that
    /// remain voters or learners; new IDs get entries from `default_entry`.
    /// The quorum-accepted value is computed afresh and may be lower than
    /// before.
    pub fn upgrade_quorum_set<F: Fn(Entry::Id) -> Entry>(self, quorum_set: QS, learner_ids: Vec<Entry::Id>, default_entry: F) -> (r: Self)
        requires
            self.wf(),
            forall|i: Entry::Id| default_entry.requires((i,)),
            forall|i: Entry::Id, e: Entry| default_entry.ensures((i,), e) ==> e.entry_id() == i@,
        ensures
            r.wf(),
            r.quorum_set_spec() == quorum_set,
            entry_ids(r.voters_spec()).to_set() == quorum_set.voters(),
            fully_sorted(r.voters_spec()),
            views_sorted::<Entry::Id>(entry_ids(r.entries_spec().skip(r.voter_count_spec() as int))),
            entry_ids(r.entries_spec().skip(r.voter_count_spec() as int)).to_set() == view_set(learner_ids@).difference(
                quorum_set.voters(),
            ),
            forall|i: int|
                0 <= i < r.entries_spec().len() ==> entry_for(
                    self.entries_spec(),
                    default_entry,
                    #[trigger] r.entries_spec()[i].entry_id(),
                    r.entries_spec()[i],
                ),
            is_greatest_accepted(quorum_set, r.voters_spec(), r.quorum_accepted_spec()),
            forall|x: IdOf<Entry>| #[trigger] r.id_status(x) == status_in(quorum_set.voters(), view_set(learner_ids@), x),
    {
        let ghost learners = view_set(learner_ids@);
        let r = Self::build(quorum_set, learner_ids, self.entries, default_entry);
        proof {
            r.lemma_wf_properties();
            r.lemma_status_from_sets(quorum_set.voters(), learners);
        }
        r
    }
}

// ---------------------------------------------------------------------------
// Progress updates.

/// The position a voter with progress `p` moves up to from position `i`:
/// right after the nearest earlier entry whose progress is at least `p`.
pub open spec fn up_target<E: VecProgressEntry>(s: Seq<E>, i: int, p: u64) -> int
    decreases i,
{
    if i <= 0 {
        0
    } else if s[i - 1].entry_progress() >= p {
        i
    } else {
        up_target(s, i - 1, p)
    }
}

/// The position a voter with progress `p` moves down to from position `i`:
/// past every following voter with a greater progress.
pub open spec fn down_target<E: VecProgressEntry>(s: Seq<E>, i: int, p: u64, vc: int) -> int
    decreases vc - i,
{
    if i + 1 >= vc {
        i
    } else if s[i + 1].entry_progress() > p {
        down_target(s, i + 1, p, vc)
    } else {
        i
    }
}

/// `s` with the entry at `from` replaced by `x` and moved to `to`.
pub open spec fn moved_to<E>(s: Seq<E>, from: int, to: int, x: E) -> Seq<E> {
    s.remove(from).insert(to, x)
}

/// The entries after the entry at `idx` is replaced by `x` whose progress is
/// not lower: a voter that rises above `qa` moves up to keep the order.
pub open spec fn after_update<E: VecProgressEntry>(s: Seq<E>, vc: int, qa: u64, idx: int, x: E) -> Seq<E> {
    if idx < vc && x.entry_progress() > s[idx].entry_progress() && x.entry_progress() > qa {
        moved_to(s, idx, up_target(s, idx, x.entry_progress()), x)
    } else {
        s.update(idx, x)
    }
}

/// The entries after the entry at `idx` is replaced by `x` whose progress is
/// not higher: a voter whose progress drops moves down to keep the order.
pub open spec fn after_reset<E: VecProgressEntry>(s: Seq<E>, vc: int, idx: int, x: E) -> Seq<E> {
    if idx < vc && x.entry_progress() < s[idx].entry_progress() {
        moved_to(s, idx, down_target(s, idx, x.entry_progress(), vc), x)
    } else {
        s.update(idx, x)
    }
}

proof fn lemma_up_target<E: VecProgressEntry>(s: Seq<E>, i: int, p: u64)
    requires
        0 <= i < s.len(),
    ensures
        0 <= up_target(s, i, p) <= i,
        forall|m: int| up_target(s, i, p) <= m < i ==> #[trigger] s[m].entry_progress() < p,
        up_target(s, i, p) > 0 ==> s[up_target(s, i, p) - 1].entry_progress() >= p,
    decreases i,
{
    if i > 0 && s[i - 1].entry_progress() < p {
        lemma_up_target(s, i - 1, p);
    }
}

proof fn lemma_down_target<E: VecProgressEntry>(s: Seq<E>, i: int, p: u64, vc: int)
    requires
        0 <= i < vc <= s.len(),
    ensures
        i <= down_target(s, i, p, vc) < vc,
        forall|m: int| i < m <= down_target(s, i, p, vc) ==> #[trigger] s[m].entry_progress() > p,
        down_target(s, i, p, vc) + 1 < vc ==> s[down_target(s, i, p, vc) + 1].entry_progress() <= p,
    decreases vc - i,
{
    if i + 1 < vc && s[i + 1].entry_progress() > p {
        lemma_down_target(s, i + 1, p, vc);
    }
}

proof fn lemma_moved_up_index<E>(s: Seq<E>, from: int, to: int, x: E)
    requires
        0 <= to <= from < s.len(),
    ensures
        moved_to(s, from, to, x).len() == s.len(),
        forall|m: int| 0 <= m < to ==> #[trigger] moved_to(s, from, to, x)[m] == s[m],
        moved_to(s, from, to, x)[to] == x,
        forall|m: int| to < m <= from ==> #[trigger] moved_to(s, from, to, x)[m] == s[m - 1],
        forall|m: int| from < m < s.len() ==> #[trigger] moved_to(s, from, to, x)[m] == s[m],
{
}

proof fn lemma_moved_down_index<E>(s: Seq<E>, from: int, to: int, x: E)
    requires
        0 <= from <= to < s.len(),
    ensures
        moved_to(s, from, to, x).len() == s.len(),
        forall|m: int| 0 <= m < from ==> #[trigger] moved_to(s, from, to, x)[m] == s[m],
        forall|m: int| from <= m < to ==> #[trigger] moved_to(s, from, to, x)[m] == s[m + 1],
        moved_to(s, from, to, x)[to] == x,
        forall|m: int| to < m < s.len() ==> #[trigger] moved_to(s, from, to, x)[m] == s[m],
{
}

/// A rearrangement that keeps the same IDs at the same positions, up to a
/// permutation of positions below `vc` that maps `i` to `perm(i)`, keeps
/// the unique IDs and the voter set.
proof fn lemma_permuted_ids<E: VecProgressEntry>(s: Seq<E>, t: Seq<E>, vc: int, perm: spec_fn(int) -> int, inv: spec_fn(int) -> int)
    requires
        0 <= vc <= s.len(),
        s.len() == t.len(),
        entry_ids(s).no_duplicates(),
        forall|m: int| 0 <= m < s.len() ==> 0 <= #[trigger] perm(m) < s.len() && inv(perm(m)) == m,
        forall|m: int| 0 <= m < s.len() ==> 0 <= #[trigger] inv(m) < s.len() && perm(inv(m)) == m,
        forall|m: int| 0 <= m < s.len() ==> (#[trigger] perm(m) < vc <==> m < vc),
        forall|m: int| 0 <= m < s.len() ==> #[trigger] t[perm(m)].entry_id() == s[m].entry_id(),
    ensures
        entry_ids(t).no_duplicates(),
        entry_ids(t.take(vc)).to_set() == entry_ids(s.take(vc)).to_set(),
        entry_ids(t).to_set() == entry_ids(s).to_set(),
{
    assert forall|a: int, b: int| 0 <= a < b < t.len() implies entry_ids(t)[a] != entry_ids(t)[b] by {
        let a0 = inv(a);
        let b0 = inv(b);
        assert(t[perm(a0)].entry_id() == s[a0].entry_id());
        assert(t[perm(b0)].entry_id() == s[b0].entry_id());
        assert(entry_ids(s)[a0] != entry_ids(s)[b0]);
    }
    assert forall|id: IdOf<E>| entry_ids(t.take(vc)).to_set().contains(id) <==> entry_ids(s.take(vc)).to_set().contains(id) by {
        let et = entry_ids(t.take(vc));
        let es = entry_ids(s.take(vc));
        if et.to_set().contains(id) {
            let k = choose|k: int| 0 <= k < et.len() && #[trigger] et[k] == id;
            let k0 = inv(k);
            assert(t[perm(k0)].entry_id() == s[k0].entry_id());
            assert(es[k0] == id);
        }
        if es.to_set().contains(id) {
            let k = choose|k: int| 0 <= k < es.len() && #[trigger] es[k] == id;
            assert(t[perm(k)].entry_id() == s[k].entry_id());
            assert(et[perm(k)] == id);
        }
    }
    assert(entry_ids(t.take(vc)).to_set() =~= entry_ids(s.take(vc)).to_set());
    assert forall|id: IdOf<E>| entry_ids(t).to_set().contains(id) <==> entry_ids(s).to_set().contains(id) by {
        let et = entry_ids(t);
        let es = entry_ids(s);
        if et.to_set().contains(id) {
            let k = choose|k: int| 0 <= k < et.len() && #[trigger] et[k] == id;
            let k0 = inv(k);
            assert(t[perm(k0)].entry_id() == s[k0].entry_id());
            assert(es[k0] == id);
        }
        if es.to_set().contains(id) {
            let k = choose|k: int| 0 <= k < es.len() && #[trigger] es[k] == id;
            assert(t[perm(k)].entry_id() == s[k].entry_id());
            assert(et[perm(k)] == id);
        }
    }
    assert(entry_ids(t).to_set() =~= entry_ids(s).to_set());
}

/// Entries with the same IDs at the same positions have the same ID
/// prefixes.
proof fn lemma_same_ids_prefix<E: VecProgressEntry>(s: Seq<E>, t: Seq<E>, j: int)
    requires
        0 <= j <= s.len(),
        s.len() == t.len(),
        forall|m: int| 0 <= m < j ==> #[trigger] t[m].entry_id() == s[m].entry_id(),
    ensures
        prefix_ids(t, j) == prefix_ids(s, j),
{
    assert(entry_ids(t.take(j)) =~= entry_ids(s.take(j)));
}

/// Entries that differ only in one entry with the same ID and a progress not
/// lower, or not above `qa`, keep the invariant.
proof fn lemma_update_in_place<E: VecProgressEntry, QS: QuorumSet<Id = E::Id>>(qs: QS, s: Seq<E>, vc: int, qa: u64, idx: int, x: E)
    requires
        state_wf(qs, s, vc, qa),
        0 <= idx < s.len(),
        x.entry_id() == s[idx].entry_id(),
        x.entry_progress() >= s[idx].entry_progress(),
        idx >= vc || x.entry_progress() == s[idx].entry_progress() || x.entry_progress() <= qa,
    ensures
        state_wf(qs, s.update(idx, x), vc, qa),
{
    let t = s.update(idx, x);
    assert(entry_ids(t) =~= entry_ids(s));
    assert(t.take(vc) =~= s.take(vc).update(idx, x) || idx >= vc);
    if idx >= vc {
        assert(t.take(vc) =~= s.take(vc));
    } else {
        assert(entry_ids(t.take(vc)) =~= entry_ids(s.take(vc)));
    }
    assert forall|i: int, j: int| 0 <= i < j < vc && #[trigger] t[j].entry_progress() > qa implies #[trigger] t[i].entry_progress()
        >= t[j].entry_progress() by {
        assert(s[j].entry_progress() > qa || j == idx);
        if j != idx {
            assert(s[i].entry_progress() >= s[j].entry_progress());
        } else {
            assert(x.entry_progress() == s[idx].entry_progress());
            assert(s[i].entry_progress() >= s[j].entry_progress());
        }
    }
    assert forall|j: int| 0 < j <= vc && #[trigger] t[j - 1].entry_progress() > qa implies !qs.accepts(prefix_ids(t, j)) by {
        lemma_same_ids_prefix(s, t, j);
        assert(s[j - 1].entry_progress() > qa);
    }
}

/// Moving a voter whose progress rose above `qa` up to its place keeps the
/// voters above `qa` sorted.
proof fn lemma_moved_up_sorted<E: VecProgressEntry>(s: Seq<E>, vc: int, qa: u64, idx: int, x: E)
    requires
        0 <= idx < vc <= s.len(),
        sorted_above(s, vc, qa),
        x.entry_progress() > qa,
        x.entry_progress() >= s[idx].entry_progress(),
    ensures
        sorted_above(moved_to(s, idx, up_target(s, idx, x.entry_progress()), x), vc, qa),
        forall|m: int| 0 <= m < up_target(s, idx, x.entry_progress()) ==> #[trigger] s[m].entry_progress() >= x.entry_progress(),
{
    let p = x.entry_progress();
    let t = up_target(s, idx, p);
    lemma_up_target(s, idx, p);
    lemma_moved_up_index(s, idx, t, x);
    let u = moved_to(s, idx, t, x);
    assert forall|m: int| 0 <= m < t implies #[trigger] s[m].entry_progress() >= p by {
        assert(s[t - 1].entry_progress() >= p);
        if m < t - 1 {
            assert(s[m].entry_progress() >= s[t - 1].entry_progress());
        }
    }
    assert forall|i: int, j: int| 0 <= i < j < vc && #[trigger] u[j].entry_progress() > qa implies #[trigger] u[i].entry_progress()
        >= u[j].entry_progress() by {
        if j < t {
        } else if j == t {
        } else if j <= idx {
            if i < t {
                assert(s[i].entry_progress() >= s[j - 1].entry_progress());
            } else if i == t {
                assert(s[j - 1].entry_progress() < p);
            } else {
                assert(s[i - 1].entry_progress() >= s[j - 1].entry_progress());
            }
        } else {
            assert(s[idx].entry_progress() >= s[j].entry_progress());
            if i < t {
            } else if i == t {
            } else if i <= idx {
                assert(s[i - 1].entry_progress() >= s[j].entry_progress());
            } else {
            }
        }
    }
}

/// ID prefixes of the entries after moving the entry at `idx` up to `t`.
proof fn lemma_moved_up_prefix<E: VecProgressEntry>(s: Seq<E>, idx: int, t: int, x: E, j: int)
    requires
        0 <= t <= idx < s.len(),
        x.entry_id() == s[idx].entry_id(),
        0 <= j <= s.len(),
    ensures
        j <= t ==> prefix_ids(moved_to(s, idx, t, x), j) == prefix_ids(s, j),
        t < j <= idx ==> prefix_ids(moved_to(s, idx, t, x), j).subset_of(prefix_ids(s, idx + 1)),
        idx < j ==> prefix_ids(moved_to(s, idx, t, x), j) == prefix_ids(s, j),
{
    lemma_moved_up_index(s, idx, t, x);
    let u = moved_to(s, idx, t, x);
    if j <= t {
        lemma_same_ids_prefix(s, u, j);
    } else if j <= idx {
        assert forall|id: IdOf<E>| prefix_ids(u, j).contains(id) implies prefix_ids(s, idx + 1).contains(id) by {
            let eu = entry_ids(u.take(j));
            let k = choose|k: int| 0 <= k < eu.len() && #[trigger] eu[k] == id;
            let k0 = if k < t { k } else if k == t { idx } else { k - 1 };
            assert(u[k].entry_id() == s[k0].entry_id());
            assert(entry_ids(s.take(idx + 1))[k0] == id);
        }
    } else {
        assert forall|id: IdOf<E>| prefix_ids(u, j).contains(id) <==> prefix_ids(s, j).contains(id) by {
            let eu = entry_ids(u.take(j));
            let es = entry_ids(s.take(j));
            if eu.to_set().contains(id) {
                let k = choose|k: int| 0 <= k < eu.len() && #[trigger] eu[k] == id;
                let k0 = if k < t { k } else if k == t { idx } else if k <= idx { k - 1 } else { k };
                assert(u[k].entry_id() == s[k0].entry_id());
                assert(es[k0] == id);
            }
            if es.to_set().contains(id) {
                let k = choose|k: int| 0 <= k < es.len() && #[trigger] es[k] == id;
                let k1 = if k < t { k } else if k < idx { k + 1 } else if k == idx { t } else { k };
                assert(u[k1].entry_id() == s[k].entry_id());
                assert(eu[k1] == id);
            }
        }
        assert(prefix_ids(u, j) =~= prefix_ids(s, j));
    }
}

/// Moving a voter up within the voters keeps the IDs unique and the voter
/// set.
proof fn lemma_moved_up_ids<E: VecProgressEntry>(s: Seq<E>, vc: int, idx: int, t: int, x: E)
    requires
        0 <= t <= idx < vc <= s.len(),
        x.entry_id() == s[idx].entry_id(),
        entry_ids(s).no_duplicates(),
    ensures
        entry_ids(moved_to(s, idx, t, x)).no_duplicates(),
        entry_ids(moved_to(s, idx, t, x).take(vc)).to_set() == entry_ids(s.take(vc)).to_set(),
        entry_ids(moved_to(s, idx, t, x)).to_set() == entry_ids(s).to_set(),
{
    lemma_moved_up_index(s, idx, t, x);
    let u = moved_to(s, idx, t, x);
    let perm = |m: int| if m < t { m } else if m < idx { m + 1 } else if m == idx { t } else { m };
    let inv = |m: int| if m < t { m } else if m == t { idx } else if m <= idx { m - 1 } else { m };
    assert forall|m: int| 0 <= m < s.len() implies #[trigger] u[perm(m)].entry_id() == s[m].entry_id() by {
    }
    lemma_permuted_ids(s, u, vc, perm, inv);
}

/// Moving a voter down within the voters keeps the IDs unique and the voter
/// set.
proof fn lemma_moved_down_ids<E: VecProgressEntry>(s: Seq<E>, vc: int, idx: int, d: int, x: E)
    requires
        0 <= idx <= d < vc <= s.len(),
        x.entry_id() == s[idx].entry_id(),
        entry_ids(s).no_duplicates(),
    ensures
        entry_ids(moved_to(s, idx, d, x)).no_duplicates(),
        entry_ids(moved_to(s, idx, d, x).take(vc)).to_set() == entry_ids(s.take(vc)).to_set(),
        entry_ids(moved_to(s, idx, d, x)).to_set() == entry_ids(s).to_set(),
{
    lemma_moved_down_index(s, idx, d, x);
    let u = moved_to(s, idx, d, x);
    let perm = |m: int| if m < idx { m } else if m == idx { d } else if m <= d { m - 1 } else { m };
    let inv = |m: int| if m < idx { m } else if m < d { m + 1 } else if m == d { idx } else { m };
    assert forall|m: int| 0 <= m < s.len() implies #[trigger] u[perm(m)].entry_id() == s[m].entry_id() by {
    }
    lemma_permuted_ids(s, u, vc, perm, inv);
}

impl<Entry: VecProgressEntry, QS: QuorumSet<Id = Entry::Id>> VecProgress<Entry, QS> {
    /// Restores the invariant after the entry at `index` got a progress not
    /// lower than `prev`, and recomputes the quorum-accepted value.
    fn update_at(&mut self, index: usize, prev: u64, Ghost(pre): Ghost<Seq<Entry>>)
        requires
            state_wf(old(self).quorum_set, pre, old(self).voter_count as int, old(self).quorum_accepted),
            index < pre.len(),
            pre.len() == old(self).entries@.len(),
            old(self).entries@ == pre.update(index as int, old(self).entries@[index as int]),
            old(self).entries@[index as int].entry_id() == pre[index as int].entry_id(),
            prev == pre[index as int].entry_progress(),
            old(self).entries@[index as int].entry_progress() >= prev,
        ensures
            final(self).wf(),
            final(self).quorum_set == old(self).quorum_set,
            final(self).voter_count == old(self).voter_count,
            final(self).entries@ == after_update(
                pre,
                old(self).voter_count as int,
                old(self).quorum_accepted,
                index as int,
                old(self).entries@[index as int],
            ),
            final(self).quorum_accepted >= old(self).quorum_accepted,
            final(self).quorum_accepted == old(self).quorum_accepted || accepted_value(
                final(self).quorum_set,
                final(self).entries@.take(final(self).voter_count as int),
                final(self).quorum_accepted,
            ),
    {
        let ghost x = self.entries@[index as int];
        let ghost vc = self.voter_count as int;
        let ghost qa0 = self.quorum_accepted;
        let ghost qs = self.quorum_set;
        let p = *self.entries[index].progress();
        if p == prev || index >= self.voter_count || p <= self.quorum_accepted {
            proof {
                lemma_update_in_place(qs, pre, vc, qa0, index as int, x);
            }
            return;
        }
        // Move the voter up to its place among the voters above `qa`.
        let mut t: usize = index;
        while t > 0 && *self.entries[t - 1].progress() < p
            invariant
                0 <= t <= index,
                index < pre.len(),
                self.entries@ == pre.update(index as int, x),
                x.entry_progress() == p,
                up_target(pre, index as int, p) == up_target(pre, t as int, p),
            decreases t,
        {
            assert(self.entries@[t - 1] == pre[t - 1]);
            t = t - 1;
        }
        proof {
            if t > 0 {
                assert(self.entries@[t - 1] == pre[t - 1]);
            }
            assert(up_target(pre, t as int, p) == t);
        }
        let e = self.entries.remove(index);
        self.entries.insert(t, e);
        proof {
            assert(self.entries@ =~= moved_to(pre, index as int, t as int, x));
            lemma_moved_up_sorted(pre, vc, qa0, index as int, x);
            lemma_moved_up_ids(pre, vc, index as int, t as int, x);
            lemma_moved_up_index(pre, index as int, t as int, x);
        }
        let ghost u = self.entries@;
        if prev > self.quorum_accepted {
            proof {
                assert forall|j: int| 0 < j <= vc && #[trigger] u[j - 1].entry_progress() > qa0 implies !qs.accepts(
                    prefix_ids(u, j),
                ) by {
                    lemma_moved_up_prefix(pre, index as int, t as int, x, j);
                    if j <= t {
                        assert(pre[j - 1].entry_progress() > qa0);
                    } else if j <= index {
                        assert(pre[(index + 1) - 1].entry_progress() > qa0);
                        if qs.accepts(prefix_ids(u, j)) {
                            qs.lemma_upward_closed(prefix_ids(u, j), prefix_ids(pre, index + 1));
                        }
                    } else if j == index + 1 {
                        assert(pre[(index + 1) - 1].entry_progress() > qa0);
                    } else {
                        assert(pre[j - 1].entry_progress() > qa0);
                    }
                }
            }
            return;
        }
        // The voter rose from at most `qa` to above it: look for the greatest
        // progress whose prefix of voters is a quorum.
        let mut ids: Vec<Entry::Id> = Vec::new();
        let mut k: usize = 0;
        while k < t
            invariant
                0 <= k <= t,
                t < self.entries@.len(),
                self.entries@ == u,
                views(ids@) == entry_ids(u.take(k as int)),
            decreases t - k,
        {
            let ghost before = ids@;
            ids.push(self.entries[k].id().copy_id());
            proof {
                lemma_view_set_push(before, ids@.last());
                assert(ids@ == before.push(ids@.last()));
            }
            assert(views(ids@) =~= entry_ids(u.take(k + 1)));
            k = k + 1;
        }
        let vcount = self.voter_count;
        let mut i: usize = t;
        let mut found = false;
        while i < vcount
            invariant_except_break
                views(ids@) == entry_ids(u.take(i as int)),
                !found,
            invariant
                t <= i <= vcount,
                vcount == vc,
                vc <= u.len(),
                self.entries@ == u,
                self.quorum_set == qs,
                self.quorum_accepted == qa0,
                forall|j: int| t < j <= i ==> #[trigger] u[j - 1].entry_progress() > qa0 && !qs.accepts(
                    prefix_ids(u, j),
                ),
            ensures
                found ==> i < vc && u[i as int].entry_progress() > qa0 && qs.accepts(prefix_ids(u, i + 1)),
                !found ==> i == vc || u[i as int].entry_progress() <= qa0,
            decreases vcount - i,
        {
            let prog = *self.entries[i].progress();
            if prog <= self.quorum_accepted {
                break;
            }
            let ghost before = ids@;
            ids.push(self.entries[i].id().copy_id());
            proof {
                lemma_view_set_push(before, ids@.last());
                assert(ids@ == before.push(ids@.last()));
            }
            assert(views(ids@) =~= entry_ids(u.take(i + 1)));
            assert(view_set(ids@) == prefix_ids(u, i + 1));
            if self.quorum_set.is_quorum(ids.as_slice()) {
                found = true;
                break;
            }
            assert(!qs.accepts(prefix_ids(u, i + 1)));
            assert(u[(i + 1) - 1].entry_progress() > qa0);
            i = i + 1;
        }
        if found {
            self.quorum_accepted = *self.entries[i].progress();
        }
        proof {
            let qa1 = self.quorum_accepted;
            assert forall|a: int, b: int| 0 <= a < b < vc && #[trigger] u[b].entry_progress() > qa1 implies #[trigger] u[a].entry_progress()
                >= u[b].entry_progress() by {
                assert(u[b].entry_progress() > qa0);
            }
            assert forall|j: int| 0 < j <= vc && #[trigger] u[j - 1].entry_progress() > qa1 implies !qs.accepts(
                prefix_ids(u, j),
            ) by {
                lemma_moved_up_prefix(pre, index as int, t as int, x, j);
                if j <= t {
                    assert(pre[j - 1].entry_progress() > qa0);
                } else if j <= i {
                } else if found {
                    assert(u[i as int].entry_progress() >= u[j - 1].entry_progress());
                } else if i < vc {
                    if j - 1 > i {
                        assert(u[i as int].entry_progress() >= u[j - 1].entry_progress());
                    }
                }
            }
            if found {
                assert forall|m: int| 0 <= m < i implies #[trigger] u[m].entry_progress() >= u[i as int].entry_progress() by {
                }
                lemma_prefix_within_at_least(u, vc, i as int);
                qs.lemma_upward_closed(prefix_ids(u, i + 1), ids_at_least(u.take(vc), qa1 as int));
                assert(u.take(vc)[i as int] == u[i as int]);
                assert(accepted_value(qs, u.take(vc), qa1));
            }
        }
    }
}

/// Moving a voter whose progress dropped down to its place keeps the
/// invariant with the same quorum-accepted value.
proof fn lemma_moved_down_wf<E: VecProgressEntry, QS: QuorumSet<Id = E::Id>>(qs: QS, s: Seq<E>, vc: int, qa: u64, idx: int, x: E)
    requires
        state_wf(qs, s, vc, qa),
        0 <= idx < vc,
        x.entry_id() == s[idx].entry_id(),
        x.entry_progress() < s[idx].entry_progress(),
    ensures
        state_wf(qs, moved_to(s, idx, down_target(s, idx, x.entry_progress(), vc), x), vc, qa),
{
    let p = x.entry_progress();
    let d = down_target(s, idx, p, vc);
    lemma_down_target(s, idx, p, vc);
    lemma_moved_down_index(s, idx, d, x);
    lemma_moved_down_ids(s, vc, idx, d, x);
    let u = moved_to(s, idx, d, x);
    assert forall|a: int, b: int| 0 <= a < b < vc && #[trigger] u[b].entry_progress() > qa implies #[trigger] u[a].entry_progress()
        >= u[b].entry_progress() by {
        if b < idx {
        } else if b < d {
            if a < idx {
                assert(s[a].entry_progress() >= s[b + 1].entry_progress());
            } else {
                assert(s[a + 1].entry_progress() >= s[b + 1].entry_progress());
            }
        } else if b == d {
            assert(s[idx].entry_progress() > qa);
            if a < idx {
                assert(s[a].entry_progress() >= s[idx].entry_progress());
            } else {
                assert(s[a + 1].entry_progress() > p);
            }
        } else {
            if a < idx {
                assert(s[a].entry_progress() >= s[b].entry_progress());
            } else if a < d {
                assert(s[a + 1].entry_progress() >= s[b].entry_progress());
            } else if a == d {
                assert(s[d + 1].entry_progress() <= p);
                if d + 1 < b {
                    assert(s[d + 1].entry_progress() >= s[b].entry_progress());
                }
            } else {
                assert(s[a].entry_progress() >= s[b].entry_progress());
            }
        }
    }
    assert forall|j: int| 0 < j <= vc && #[trigger] u[j - 1].entry_progress() > qa implies !qs.accepts(prefix_ids(u, j)) by {
        if j <= idx {
            lemma_same_ids_prefix(s, u, j);
        } else if j <= d {
            assert(u[j - 1] == s[j]);
            assert(s[(j + 1) - 1].entry_progress() > qa);
            assert(prefix_ids(u, j).subset_of(prefix_ids(s, j + 1))) by {
                assert forall|id: IdOf<E>| prefix_ids(u, j).contains(id) implies prefix_ids(s, j + 1).contains(id) by {
                    let eu = entry_ids(u.take(j));
                    let k = choose|k: int| 0 <= k < eu.len() && #[trigger] eu[k] == id;
                    let k0 = if k < idx { k } else { k + 1 };
                    assert(u[k].entry_id() == s[k0].entry_id());
                    assert(entry_ids(s.take(j + 1))[k0] == id);
                }
            }
            if qs.accepts(prefix_ids(u, j)) {
                qs.lemma_upward_closed(prefix_ids(u, j), prefix_ids(s, j + 1));
            }
        } else {
            if j - 1 == d {
                if d > idx {
                    assert(s[d].entry_progress() > p);
                }
                assert(s[j - 1].entry_progress() > qa);
            } else {
                assert(s[j - 1].entry_progress() > qa);
            }
            assert forall|id: IdOf<E>| prefix_ids(u, j).contains(id) <==> prefix_ids(s, j).contains(id) by {
                let eu = entry_ids(u.take(j));
                let es = entry_ids(s.take(j));
                if eu.to_set().contains(id) {
                    let k = choose|k: int| 0 <= k < eu.len() && #[trigger] eu[k] == id;
                    let k0 = if k < idx { k } else if k < d { k + 1 } else if k == d { idx } else { k };
                    assert(u[k].entry_id() == s[k0].entry_id());
                    assert(es[k0] == id);
                }
                if es.to_set().contains(id) {
                    let k = choose|k: int| 0 <= k < es.len() && #[trigger] es[k] == id;
                    let k1 = if k < idx { k } else if k == idx { d } else if k <= d { k - 1 } else { k };
                    assert(u[k1].entry_id() == s[k].entry_id());
                    assert(eu[k1] == id);
                }
            }
            assert(prefix_ids(u, j) =~= prefix_ids(s, j));
        }
    }
}

/// Replacing a learner, or a voter without changing its progress, keeps the
/// invariant.
proof fn lemma_reset_in_place<E: VecProgressEntry, QS: QuorumSet<Id = E::Id>>(qs: QS, s: Seq<E>, vc: int, qa: u64, idx: int, x: E)
    requires
        state_wf(qs, s, vc, qa),
        0 <= idx < s.len(),
        x.entry_id() == s[idx].entry_id(),
        idx >= vc || x.entry_progress() == s[idx].entry_progress(),
    ensures
        state_wf(qs, s.update(idx, x), vc, qa),
{
    let t = s.update(idx, x);
    assert(entry_ids(t) =~= entry_ids(s));
    assert(entry_ids(t.take(vc)) =~= entry_ids(s.take(vc)));
    assert forall|i: int, j: int| 0 <= i < j < vc && #[trigger] t[j].entry_progress() > qa implies #[trigger] t[i].entry_progress()
        >= t[j].entry_progress() by {
        assert(s[i].entry_progress() >= s[j].entry_progress());
    }
    assert forall|j: int| 0 < j <= vc && #[trigger] t[j - 1].entry_progress() > qa implies !qs.accepts(prefix_ids(t, j)) by {
        lemma_same_ids_prefix(s, t, j);
        assert(s[j - 1].entry_progress() > qa);
    }
}

/// The index of the entry with `id`.
pub open spec fn index_of<E: VecProgressEntry>(s: Seq<E>, id: IdOf<E>) -> int {
    choose|i: int| 0 <= i < s.len() && #[trigger] s[i].entry_id() == id
}

proof fn lemma_index_of<E: VecProgressEntry>(s: Seq<E>, id: IdOf<E>, i: int)
    requires
        entry_ids(s).no_duplicates(),
        0 <= i < s.len(),
        s[i].entry_id() == id,
    ensures
        index_of(s, id) == i,
{
    let k = index_of(s, id);
    assert(entry_ids(s)[k] == entry_ids(s)[i]);
}

impl<Entry: VecProgressEntry, QS: QuorumSet<Id = Entry::Id>> VecProgress<Entry, QS> {
    /// `self` is `pre` after the entry at `idx` was replaced by `x` with a
    /// progress not lower: entries reordered as [`after_update`] says, and
    /// the quorum-accepted value raised to the greatest voter progress that a
    /// quorum accepts, when that is greater.
    pub open spec fn updated_from(&self, pre: &Self, idx: int, x: Entry) -> bool {
        let qs = self.quorum_set_spec();
        &&& qs == pre.quorum_set_spec()
        &&& self.voter_count_spec() == pre.voter_count_spec()
        &&& self.entries_spec() == after_update(
            pre.entries_spec(),
            pre.voter_count_spec() as int,
            pre.quorum_accepted_spec(),
            idx,
            x,
        )
        &&& self.quorum_accepted_spec() >= pre.quorum_accepted_spec()
        &&& (self.quorum_accepted_spec() == pre.quorum_accepted_spec() || accepted_value(
            qs,
            self.voters_spec(),
            self.quorum_accepted_spec(),
        ))
        &&& none_accepted_above(qs, self.voters_spec(), self.quorum_accepted_spec())
    }

    /// `self` is `pre` after the entry at `idx` was replaced by `x` with a
    /// progress not higher: entries reordered as [`after_reset`] says, and
    /// the quorum-accepted value kept.
    pub open spec fn reset_from(&self, pre: &Self, idx: int, x: Entry) -> bool {
        &&& self.quorum_set_spec() == pre.quorum_set_spec()
        &&& self.voter_count_spec() == pre.voter_count_spec()
        &&& self.entries_spec() == after_reset(pre.entries_spec(), pre.voter_count_spec() as int, idx, x)
        &&& self.quorum_accepted_spec() == pre.quorum_accepted_spec()
    }

    /// The same state.
    pub open spec fn unchanged_from(&self, pre: &Self) -> bool {
        &&& self.quorum_set_spec() == pre.quorum_set_spec()
        &&& self.voter_count_spec() == pre.voter_count_spec()
        &&& self.entries_spec() == pre.entries_spec()
        &&& self.quorum_accepted_spec() == pre.quorum_accepted_spec()
    }

    proof fn lemma_after_update(&self, pre: &Self, idx: int, x: Entry)
        requires
            self.wf(),
            self.quorum_set == pre.quorum_set,
            self.voter_count == pre.voter_count,
            self.entries@ == after_update(pre.entries@, pre.voter_count as int, pre.quorum_accepted, idx, x),
            self.quorum_accepted >= pre.quorum_accepted,
            self.quorum_accepted == pre.quorum_accepted || accepted_value(
                self.quorum_set,
                self.entries@.take(self.voter_count as int),
                self.quorum_accepted,
            ),
        ensures
            self.updated_from(pre, idx, x),
    {
        self.lemma_wf_properties();
    }

    /// Updates the entry of `id` with `f` and recalculates the
    /// quorum-accepted value, for application fields that change together
    /// with the progress. `f` must keep the ID and must not lower the
    /// progress.
    ///
    /// Returns `None` when `id` is not tracked, otherwise the quorum-accepted
    /// value.
    pub fn update_entry_with<F: FnOnce(&mut Entry)>(&mut self, id: &Entry::Id, f: F) -> (r: Option<&u64>)
        requires
            old(self).wf(),
            forall|e: &mut Entry| f.requires((e,)),
            forall|e: &mut Entry| #[trigger] f.ensures((e,), ()) ==> final(e).entry_id() == e.entry_id() && final(e).entry_progress()
                >= e.entry_progress(),
        ensures
            final(self).wf(),
            forall|x: IdOf<Entry>| #[trigger] final(self).id_status(x) == old(self).id_status(x),
            match r {
                None => !entry_ids(old(self).entries_spec()).contains(id@) && final(self).unchanged_from(&*old(self)),
                Some(q) => {
                    let idx = index_of(old(self).entries_spec(), id@);
                    &&& entry_ids(old(self).entries_spec()).contains(id@)
                    &&& *q == final(self).quorum_accepted_spec()
                    &&& exists|e: &mut Entry| #[trigger] f.ensures((e,), ()) && *e == old(self).entries_spec()[idx]
                        && final(self).updated_from(&*old(self), idx, *final(e))
                },
            },
    {
        let ghost pre = *self;
        let index = match self.index(id) {
            Some(i) => i,
            None => return None,
        };
        proof {
            lemma_index_of(self.entries@, id@, index as int);
            assert(entry_ids(self.entries@)[index as int] == id@);
        }
        let prev = *self.entries[index].progress();
        let mut e = self.entries.remove(index);
        let ghost before = e;
        f(&mut e);
        let ghost n = e;
        self.entries.insert(index, e);
        assert(self.entries@ =~= pre.entries@.update(index as int, n));
        self.update_at(index, prev, Ghost(pre.entries@));
        proof {
            self.lemma_after_update(&pre, index as int, n);
            Self::lemma_change_keeps_ids(&*self, &pre, index as int, n);
        }
        Some(&self.quorum_accepted)
    }

    /// Sets the progress of `id` to `value`, which must not be lower than the
    /// current one, and recalculates the quorum-accepted value.
    ///
    /// Returns `None` when `id` is not tracked, otherwise the quorum-accepted
    /// value.
    pub fn update_progress(&mut self, id: &Entry::Id, value: u64) -> (r: Option<&u64>)
        requires
            old(self).wf(),
            forall|i: int|
                0 <= i < old(self).entries_spec().len() && #[trigger] old(self).entries_spec()[i].entry_id() == id@
                    ==> old(self).entries_spec()[i].entry_progress() <= value,
        ensures
            final(self).wf(),
            forall|x: IdOf<Entry>| #[trigger] final(self).id_status(x) == old(self).id_status(x),
            match r {
                None => !entry_ids(old(self).entries_spec()).contains(id@) && final(self).unchanged_from(&*old(self)),
                Some(q) => {
                    let idx = index_of(old(self).entries_spec(), id@);
                    &&& entry_ids(old(self).entries_spec()).contains(id@)
                    &&& *q == final(self).quorum_accepted_spec()
                    &&& final(self).updated_from(
                        &*old(self),
                        idx,
                        old(self).entries_spec()[idx].with_progress(value),
                    )
                },
            },
    {
        let ghost pre = *self;
        let index = match self.index(id) {
            Some(i) => i,
            None => return None,
        };
        proof {
            lemma_index_of(self.entries@, id@, index as int);
            assert(entry_ids(self.entries@)[index as int] == id@);
        }
        proof {
            assert(pre.entries_spec()[index as int].entry_id() == id@);
        }
        let prev = *self.entries[index].progress();
        let ghost e0 = self.entries@[index as int];
        let p = self.entries[index].progress_mut();
        *p = value;
        let ghost n = self.entries@[index as int];
        proof {
            e0.lemma_with_progress(value);
            assert(n == e0.with_progress(value));
        }
        assert(self.entries@ =~= pre.entries@.update(index as int, n));
        self.update_at(index, prev, Ghost(pre.entries@));
        proof {
            self.lemma_after_update(&pre, index as int, n);
            Self::lemma_change_keeps_ids(&*self, &pre, index as int, n);
        }
        Some(&self.quorum_accepted)
    }

    /// Raises the progress of `id` to `value` when `value` is greater, and
    /// recalculates the quorum-accepted value.
    ///
    /// Returns `None` when `id` is not tracked, otherwise the quorum-accepted
    /// value.
    pub fn increase_to(&mut self, id: &Entry::Id, value: u64) -> (r: Option<&u64>)
        requires
            old(self).wf(),
        ensures
            final(self).wf(),
            forall|x: IdOf<Entry>| #[trigger] final(self).id_status(x) == old(self).id_status(x),
            match r {
                None => !entry_ids(old(self).entries_spec()).contains(id@) && final(self).unchanged_from(&*old(self)),
                Some(q) => {
                    let idx = index_of(old(self).entries_spec(), id@);
                    let current = old(self).entries_spec()[idx].entry_progress();
                    &&& entry_ids(old(self).entries_spec()).contains(id@)
                    &&& *q == final(self).quorum_accepted_spec()
                    &&& final(self).updated_from(
                        &*old(self),
                        idx,
                        old(self).entries_spec()[idx].with_progress(if value > current { value } else { current }),
                    )
                },
            },
    {
        let ghost pre = *self;
        let index = match self.index(id) {
            Some(i) => i,
            None => return None,
        };
        proof {
            lemma_index_of(self.entries@, id@, index as int);
            assert(entry_ids(self.entries@)[index as int] == id@);
        }
        let prev = *self.entries[index].progress();
        let raised = if value > prev { value } else { prev };
        let ghost e0 = self.entries@[index as int];
        let p = self.entries[index].progress_mut();
        *p = raised;
        let ghost n = self.entries@[index as int];
        proof {
            e0.lemma_with_progress(raised);
            assert(n == e0.with_progress(raised));
        }
        assert(self.entries@ =~= pre.entries@.update(index as int, n));
        self.update_at(index, prev, Ghost(pre.entries@));
        proof {
            self.lemma_after_update(&pre, index as int, n);
            Self::lemma_change_keeps_ids(&*self, &pre, index as int, n);
        }
        Some(&self.quorum_accepted)
    }

    /// Updates the entry of `id` with `f` when its progress may move
    /// backward, e.g. when replication is reset upon log reversion. `f` must
    /// keep the ID and must not raise the progress.
    ///
    /// A lowered voter moves down to keep the order; the quorum-accepted value
    /// is kept, since a value accepted by a quorum is never withdrawn.
    /// Returns the updated entry, or `None` when `id` is not tracked.
    pub fn reset_entry_with<F: FnOnce(&mut Entry)>(&mut self, id: &Entry::Id, f: F) -> (r: Option<&Entry>)
        requires
            old(self).wf(),
            forall|e: &mut Entry| f.requires((e,)),
            forall|e: &mut Entry| #[trigger] f.ensures((e,), ()) ==> final(e).entry_id() == e.entry_id() && final(e).entry_progress()
                <= e.entry_progress(),
        ensures
            final(self).wf(),
            forall|x: IdOf<Entry>| #[trigger] final(self).id_status(x) == old(self).id_status(x),
            match r {
                None => !entry_ids(old(self).entries_spec()).contains(id@) && final(self).unchanged_from(&*old(self)),
                Some(n) => {
                    let idx = index_of(old(self).entries_spec(), id@);
                    &&& entry_ids(old(self).entries_spec()).contains(id@)
                    &&& exists|e: &mut Entry| #[trigger] f.ensures((e,), ()) && *e == old(self).entries_spec()[idx]
                        && *final(e) == *n
                    &&& final(self).reset_from(&*old(self), idx, *n)
                },
            },
    {
        let ghost pre = *self;
        let index = match self.index(id) {
            Some(i) => i,
            None => return None,
        };
        proof {
            lemma_index_of(self.entries@, id@, index as int);
            assert(entry_ids(self.entries@)[index as int] == id@);
        }
        let prev = *self.entries[index].progress();
        let mut n = self.entries.remove(index);
        f(&mut n);
        let p = *n.progress();
        let ghost x = n;
        if index < self.voter_count && p < prev {
            let vcount = self.voter_count;
            let mut d: usize = index;
            while d + 1 < vcount && p < *self.entries[d].progress()
                invariant
                    index <= d < vcount,
                    vcount == pre.voter_count,
                    vcount <= pre.entries@.len(),
                    self.entries@ == pre.entries@.remove(index as int),
                    p == x.entry_progress(),
                    down_target(pre.entries@, index as int, p, vcount as int) == down_target(
                        pre.entries@,
                        d as int,
                        p,
                        vcount as int,
                    ),
                decreases vcount - d,
            {
                assert(self.entries@[d as int] == pre.entries@[d + 1]);
                d = d + 1;
            }
            proof {
                if d + 1 < vcount {
                    assert(self.entries@[d as int] == pre.entries@[d + 1]);
                }
                assert(down_target(pre.entries@, d as int, p, vcount as int) == d);
            }
            self.entries.insert(d, n);
            proof {
                assert(self.entries@ =~= moved_to(pre.entries@, index as int, d as int, x));
                lemma_moved_down_wf(pre.quorum_set, pre.entries@, pre.voter_count as int, pre.quorum_accepted, index as int, x);
                lemma_moved_down_index(pre.entries@, index as int, d as int, x);
                assert(self.reset_from(&pre, index as int, x));
                Self::lemma_change_keeps_ids(&*self, &pre, index as int, x);
            }
            Some(&self.entries[d])
        } else {
            self.entries.insert(index, n);
            proof {
                assert(self.entries@ =~= pre.entries@.update(index as int, x));
                lemma_reset_in_place(pre.quorum_set, pre.entries@, pre.voter_count as int, pre.quorum_accepted, index as int, x);
                assert(self.reset_from(&pre, index as int, x));
                Self::lemma_change_keeps_ids(&*self, &pre, index as int, x);
            }
            Some(&self.entries[index])
        }
    }

    /// Updates the application data of `id` with `f`, without touching IDs,
    /// progress or the quorum-accepted value.
    ///
    /// Returns the updated data, or `None` when `id` is not tracked.
    pub fn update_data_with<F: FnOnce(&mut Entry::Data)>(&mut self, id: &Entry::Id, f: F) -> (r: Option<&Entry::Data>)
        where Entry: VecProgressEntryData,
        requires
            old(self).wf(),
            forall|d: &mut Entry::Data| f.requires((d,)),
        ensures
            final(self).wf(),
            forall|x: IdOf<Entry>| #[trigger] final(self).id_status(x) == old(self).id_status(x),
            final(self).quorum_set_spec() == old(self).quorum_set_spec(),
            final(self).voter_count_spec() == old(self).voter_count_spec(),
            final(self).quorum_accepted_spec() == old(self).quorum_accepted_spec(),
            match r {
                None => !entry_ids(old(self).entries_spec()).contains(id@) && final(self).unchanged_from(&*old(self)),
                Some(d) => {
                    let idx = index_of(old(self).entries_spec(), id@);
                    let e = final(self).entries_spec()[idx];
                    &&& entry_ids(old(self).entries_spec()).contains(id@)
                    &&& final(self).entries_spec() == old(self).entries_spec().update(idx, e)
                    &&& e.entry_id() == id@
                    &&& e.entry_progress() == old(self).entries_spec()[idx].entry_progress()
                    &&& e.entry_data() == *d
                    &&& exists|m: &mut Entry::Data| #[trigger] f.ensures((m,), ()) && *m == old(
                        self,
                    ).entries_spec()[idx].entry_data() && *final(m) == *d
                },
            },
    {
        let ghost pre = *self;
        let index = match self.index(id) {
            Some(i) => i,
            None => return None,
        };
        proof {
            lemma_index_of(self.entries@, id@, index as int);
            assert(entry_ids(self.entries@)[index as int] == id@);
        }
        f(self.entries[index].data_mut());
        let ghost n = self.entries@[index as int];
        assert(self.entries@ =~= pre.entries@.update(index as int, n));
        proof {
            lemma_reset_in_place(pre.quorum_set, pre.entries@, pre.voter_count as int, pre.quorum_accepted, index as int, n);
            pre.lemma_wf_properties();
            let vc = pre.voter_count as int;
            assert(entry_ids(self.entries@) =~= entry_ids(pre.entries@));
            assert(entry_ids(self.entries@.take(vc)) =~= entry_ids(pre.entries@.take(vc)));
            Self::lemma_status_kept(&*self, &pre);
        }
        Some(self.entries[index].data())
    }
}


/// Entries with the same IDs and progress values at every position, where
/// only other fields may differ, satisfy the same invariant.
proof fn lemma_same_keys_wf<E: VecProgressEntry, QS: QuorumSet<Id = E::Id>>(qs: QS, s: Seq<E>, t: Seq<E>, vc: int, qa: u64)
    requires
        state_wf(qs, s, vc, qa),
        s.len() == t.len(),
        forall|i: int|
            0 <= i < s.len() ==> #[trigger] t[i].entry_id() == s[i].entry_id() && t[i].entry_progress()
                == s[i].entry_progress(),
    ensures
        state_wf(qs, t, vc, qa),
{
    assert(entry_ids(t) =~= entry_ids(s));
    assert(entry_ids(t.take(vc)) =~= entry_ids(s.take(vc)));
    assert forall|i: int, j: int| 0 <= i < j < vc && #[trigger] t[j].entry_progress() > qa implies #[trigger] t[i].entry_progress()
        >= t[j].entry_progress() by {
        assert(t[i].entry_id() == s[i].entry_id() && t[j].entry_id() == s[j].entry_id());
        assert(s[i].entry_progress() >= s[j].entry_progress());
    }
    assert forall|j: int| 0 < j <= vc && #[trigger] t[j - 1].entry_progress() > qa implies !qs.accepts(prefix_ids(t, j)) by {
        assert(t[j - 1].entry_id() == s[j - 1].entry_id());
        lemma_same_ids_prefix(s, t, j);
        assert(s[j - 1].entry_progress() > qa);
    }
}

impl<Entry: VecProgressEntry, QS: QuorumSet<Id = Entry::Id>> VecProgress<Entry, QS> {
    /// Returns the entries for change in place, without keeping the progress
    /// order or the quorum-accepted value up to date.
    ///
    /// Changing progress values this way can leave the order and the
    /// quorum-accepted value stale, and changing IDs can break lookups; the
    /// tracker stays valid when both are kept as they were.
    pub fn iter_mut_without_reorder(&mut self) -> (r: &mut [Entry])
        ensures
            r@ == old(self).entries_spec(),
            final(self).entries_spec() == final(r)@,
            final(self).quorum_set_spec() == old(self).quorum_set_spec(),
            final(self).voter_count_spec() == old(self).voter_count_spec(),
            final(self).quorum_accepted_spec() == old(self).quorum_accepted_spec(),
            old(self).wf() && final(r)@.len() == r@.len() && (forall|i: int|
                0 <= i < r@.len() ==> #[trigger] final(r)@[i].entry_id() == r@[i].entry_id()
                    && final(r)@[i].entry_progress() == r@[i].entry_progress()) ==> final(self).wf(),
    {
        let ghost pre = *self;
        proof {
            assert forall|t: Seq<Entry>|
                pre.wf() && t.len() == pre.entries@.len() && (forall|i: int|
                    0 <= i < t.len() ==> #[trigger] t[i].entry_id() == pre.entries@[i].entry_id()
                        && t[i].entry_progress() == pre.entries@[i].entry_progress()) implies #[trigger] state_wf(
                pre.quorum_set,
                t,
                pre.voter_count as int,
                pre.quorum_accepted,
            ) by {
                lemma_same_keys_wf(pre.quorum_set, pre.entries@, t, pre.voter_count as int, pre.quorum_accepted);
            }
        }
        let r = self.entries.as_mut_slice();
        r
    }

    /// Maps every entry, voters first, with `f` and collects the results.
    pub fn collect_mapped<T, F: Fn(&Entry) -> T>(&self, f: F) -> (r: Vec<T>)
        requires
            forall|e: &Entry| f.requires((e,)),
        ensures
            r@.len() == self.entries_spec().len(),
            forall|i: int| 0 <= i < r@.len() ==> f.ensures((&self.entries_spec()[i],), #[trigger] r@[i]),
    {
        let mut out: Vec<T> = Vec::new();
        let mut i: usize = 0;
        while i < self.entries.len()
            invariant
                0 <= i <= self.entries@.len(),
                out@.len() == i,
                forall|e: &Entry| f.requires((e,)),
                forall|k: int| 0 <= k < i ==> f.ensures((&self.entries@[k],), #[trigger] out@[k]),
            decreases self.entries@.len() - i,
        {
            let v = f(&self.entries[i]);
            out.push(v);
            i = i + 1;
        }
        out
    }

    /// Takes the entries out, voters first and learners after them.
    pub fn into_entries(self) -> (r: Vec<Entry>)
        ensures
            r@ == self.entries_spec(),
    {
        self.entries
    }
}

/// The parts joined with `", "`.
pub open spec fn comma_join(parts: Seq<Seq<char>>) -> Seq<char>
    decreases parts.len(),
{
    if parts.len() == 0 {
        seq![]
    } else if parts.len() == 1 {
        parts[0]
    } else {
        comma_join(parts.drop_last()) + seq![',', ' '] + parts.last()
    }
}

/// The parts joined with `", "` between `{` and `}`.
pub open spec fn braced_list(parts: Seq<Seq<char>>) -> Seq<char> {
    seq!['{'] + comma_join(parts) + seq!['}']
}

/// The characters of each string.
pub open spec fn string_views(parts: Seq<String>) -> Seq<Seq<char>> {
    parts.map_values(|s: String| s@)
}

/// `parts[i]` is a text that `f` returns for `entries[i]`, at every position.
pub open spec fn rendered_by<E, F: Fn(&E) -> String>(f: F, entries: Seq<E>, parts: Seq<String>) -> bool {
    &&& parts.len() == entries.len()
    &&& forall|i: int| 0 <= i < entries.len() ==> f.ensures((&entries[i],), #[trigger] parts[i])
}

impl<Entry: VecProgressEntry, QS: QuorumSet<Id = Entry::Id>> VecProgress<Entry, QS> {
    /// The entries, voters first, each written by `f`, joined with `", "`
    /// between braces.
    pub fn display_with<F: Fn(&Entry) -> String>(&self, f: F) -> (r: String)
        requires
            forall|e: &Entry| f.requires((e,)),
        ensures
            exists|parts: Seq<String>| #[trigger] rendered_by(f, self.entries_spec(), parts) && r@ == braced_list(string_views(parts)),
    {
        let mut out = String::from_str("{");
        proof {
            reveal_strlit("{");
            reveal_strlit(", ");
            reveal_strlit("}");
        }
        let ghost mut parts: Seq<String> = Seq::empty();
        let mut i: usize = 0;
        while i < self.entries.len()
            invariant
                0 <= i <= self.entries@.len(),
                parts.len() == i,
                forall|e: &Entry| f.requires((e,)),
                forall|k: int| 0 <= k < i ==> f.ensures((&self.entries@[k],), #[trigger] parts[k]),
                out@ == seq!['{'] + comma_join(string_views(parts)),
                ", "@ == seq![',', ' '],
            decreases self.entries@.len() - i,
        {
            if i > 0 {
                out.append(", ");
            }
            let text = f(&self.entries[i]);
            out.append(text.as_str());
            proof {
                let before = parts;
                parts = parts.push(text);
                assert(string_views(parts).drop_last() =~= string_views(before));
                assert(string_views(parts).last() == text@);
                if i == 0 {
                    assert(string_views(parts) =~= seq![text@]);
                }
            }
            i = i + 1;
        }
        let ghost body = out@;
        out.append("}");
        proof {
            reveal_strlit("}");
            assert(out@ =~= braced_list(string_views(parts)));
            assert(rendered_by(f, self.entries_spec(), parts));
        }
        out
    }
}

/// The text of every entry, `"<id>: <val>"`.
pub open spec fn id_val_texts<ID: DisplayId>(s: Seq<IdVal<ID, u64>>) -> Seq<Seq<char>> {
    s.map_values(|e: IdVal<ID, u64>| id_val_text::<ID>(e.id@, e.val))
}

impl<ID: DisplayId, QS: QuorumSet<Id = ID>> VecProgress<IdVal<ID, u64>, QS> {
    /// The entries, voters first, each as `"<id>: <val>"`, joined with
    /// `", "` between braces.
    pub fn display(&self) -> (r: String)
        ensures
            r@ == braced_list(id_val_texts(self.entries_spec())),
    {
        let show = |e: &IdVal<ID, u64>| -> (t: String)
            ensures
                t@ == id_val_text::<ID>(e.id@, e.val),
            { e.display() };
        let r = self.display_with(show);
        proof {
            let parts = choose|parts: Seq<String>| #[trigger] rendered_by(show, self.entries_spec(), parts) && r@ == braced_list(string_views(parts));
            assert(string_views(parts) =~= id_val_texts(self.entries_spec())) by {
                assert forall|k: int| 0 <= k < parts.len() implies string_views(parts)[k] == id_val_texts(self.entries_spec())[k] by {
                    assert(show.ensures((&self.entries_spec()[k],), parts[k]));
                }
            }
        }
        r
    }
}

// ---------------------------------------------------------------------------
// When the quorum-accepted value moves.

/// The voters after an update are the voters before it, with the updated
/// entry replaced by `x`.
proof fn lemma_after_update_voters<E: VecProgressEntry>(s: Seq<E>, vc: int, qa: u64, idx: int, x: E)
    requires
        0 <= idx < s.len(),
        0 <= vc <= s.len(),
        x.entry_progress() >= s[idx].entry_progress(),
    ensures
        after_update(s, vc, qa, idx, x).len() == s.len(),
        idx >= vc ==> after_update(s, vc, qa, idx, x).take(vc) == s.take(vc),
        idx < vc ==> forall|k: int|
            0 <= k < vc ==> #[trigger] after_update(s, vc, qa, idx, x)[k] == x || exists|j: int|
                0 <= j < vc && j != idx && after_update(s, vc, qa, idx, x)[k] == #[trigger] s[j],
{
    let u = after_update(s, vc, qa, idx, x);
    if idx < vc && x.entry_progress() > s[idx].entry_progress() && x.entry_progress() > qa {
        let t = up_target(s, idx, x.entry_progress());
        lemma_up_target(s, idx, x.entry_progress());
        lemma_moved_up_index(s, idx, t, x);
        assert forall|k: int| 0 <= k < vc implies #[trigger] u[k] == x || exists|j: int|
            0 <= j < vc && j != idx && u[k] == #[trigger] s[j] by {
            if k < t {
                assert(u[k] == s[k]);
            } else if k == t {
            } else if k <= idx {
                assert(u[k] == s[k - 1]);
            } else {
                assert(u[k] == s[k]);
            }
        }
    } else {
        if idx >= vc {
            assert(u.take(vc) =~= s.take(vc));
        } else {
            assert forall|k: int| 0 <= k < vc implies #[trigger] u[k] == x || exists|j: int|
                0 <= j < vc && j != idx && u[k] == #[trigger] s[j] by {
                if k != idx {
                    assert(u[k] == s[k]);
                }
            }
        }
    }
}

/// Every voter before an update is still a voter after it, but for the
/// updated one, which becomes `x`.
proof fn lemma_after_update_keeps_voters<E: VecProgressEntry>(s: Seq<E>, vc: int, qa: u64, idx: int, x: E)
    requires
        0 <= idx < vc <= s.len(),
        x.entry_progress() >= s[idx].entry_progress(),
    ensures
        forall|j: int|
            0 <= j < vc && j != idx ==> exists|k: int|
                0 <= k < vc && #[trigger] after_update(s, vc, qa, idx, x)[k] == #[trigger] s[j],
        exists|k: int| 0 <= k < vc && #[trigger] after_update(s, vc, qa, idx, x)[k] == x,
{
    let u = after_update(s, vc, qa, idx, x);
    if x.entry_progress() > s[idx].entry_progress() && x.entry_progress() > qa {
        let t = up_target(s, idx, x.entry_progress());
        lemma_up_target(s, idx, x.entry_progress());
        lemma_moved_up_index(s, idx, t, x);
        assert forall|j: int| 0 <= j < vc && j != idx implies exists|k: int|
            0 <= k < vc && #[trigger] u[k] == #[trigger] s[j] by {
            if j < t {
                assert(u[j] == s[j]);
            } else if j < idx {
                assert(u[j + 1] == s[j]);
            } else {
                assert(u[j] == s[j]);
            }
        }
        assert(u[t] == x);
    } else {
        assert forall|j: int| 0 <= j < vc && j != idx implies exists|k: int|
            0 <= k < vc && #[trigger] u[k] == #[trigger] s[j] by {
            assert(u[j] == s[j]);
        }
        assert(u[idx] == x);
    }
}

impl<Entry: VecProgressEntry, QS: QuorumSet<Id = Entry::Id>> VecProgress<Entry, QS> {
    /// An update changes the quorum-accepted value only when a voter's
    /// progress moves from at most that value to above it: updating a
    /// learner, a voter already above the value, or a voter to a progress
    /// not above it leaves the value as it was.
    pub proof fn lemma_quorum_accepted_moves_only_on_crossing(post: &Self, pre: &Self, idx: int, x: Entry)
        requires
            pre.wf(),
            0 <= idx < pre.entries_spec().len(),
            x.entry_id() == pre.entries_spec()[idx].entry_id(),
            x.entry_progress() >= pre.entries_spec()[idx].entry_progress(),
            post.updated_from(pre, idx, x),
        ensures
            post.quorum_accepted_spec() != pre.quorum_accepted_spec() ==> {
                &&& idx < pre.voter_count_spec()
                &&& pre.entries_spec()[idx].entry_progress() <= pre.quorum_accepted_spec()
                &&& pre.quorum_accepted_spec() < x.entry_progress()
            },
    {
        pre.lemma_wf_properties();
        let s = pre.entries_spec();
        let vc = pre.voter_count_spec() as int;
        let qa = pre.quorum_accepted_spec();
        let qs = pre.quorum_set_spec();
        let u = post.entries_spec();
        let v = post.quorum_accepted_spec();
        lemma_after_update_voters(s, vc, qa, idx, x);
        let old_p = s[idx].entry_progress();
        let crossing = idx < vc && old_p <= qa && qa < x.entry_progress();
        if v != qa && !crossing {
            // `v` is a voter progress above `qa` that a quorum accepts.
            assert(accepted_value(qs, u.take(vc), v));
            let i = choose|i: int| 0 <= i < u.take(vc).len() && #[trigger] u.take(vc)[i].entry_progress() == v && qs.accepts(ids_at_least(u.take(vc), v as int));
            let post_set = ids_at_least(u.take(vc), v as int);
            assert(u.take(vc)[i] == u[i]);
            if idx >= vc {
                assert(u.take(vc) == s.take(vc));
                assert(s.take(vc)[i].entry_progress() > qa);
            } else {
                // Find a voter progress `w` above `qa` before the update whose
                // voters hold every voter with progress at least `v` after it.
                let w: u64 = if old_p > qa && v > old_p { old_p } else { v };
                assert(w > qa);
                let wi: int = if old_p > qa && v > old_p {
                    idx
                } else if u[i] == x {
                    idx
                } else {
                    choose|j: int| 0 <= j < vc && j != idx && u[i] == #[trigger] s[j]
                };
                assert(0 <= wi < vc);
                assert(s[wi].entry_progress() == w);
                assert(s.take(vc)[wi] == s[wi]);
                let pre_set = ids_at_least(s.take(vc), w as int);
                assert(post_set.subset_of(pre_set)) by {
                    assert forall|id: IdOf<Entry>| post_set.contains(id) implies pre_set.contains(id) by {
                        let k = choose|k: int| 0 <= k < u.take(vc).len() && #[trigger] u.take(vc)[k].entry_id() == id && u.take(vc)[k].entry_progress() >= v;
                        assert(u.take(vc)[k] == u[k]);
                        if u[k] == x {
                            assert(x.entry_progress() >= v);
                            assert(old_p > qa);
                            assert(s.take(vc)[idx] == s[idx]);
                            assert(s.take(vc)[idx].entry_id() == id);
                        } else {
                            let j = choose|j: int| 0 <= j < vc && j != idx && u[k] == #[trigger] s[j];
                            assert(s.take(vc)[j] == s[j]);
                        }
                    }
                }
                assert(s.take(vc)[wi].entry_progress() > qa);
                assert(!qs.accepts(pre_set));
                qs.lemma_upward_closed(post_set, pre_set);
            }
        }
    }
}

impl<Entry: VecProgressEntry, QS: QuorumSet<Id = Entry::Id>> VecProgress<Entry, QS> {
    /// Updating an entry to the progress it already has leaves the
    /// quorum-accepted value, the position of every entry and every ID and
    /// progress as they were.
    pub proof fn lemma_same_progress_keeps_state(post: &Self, pre: &Self, idx: int, x: Entry)
        requires
            pre.wf(),
            0 <= idx < pre.entries_spec().len(),
            x.entry_id() == pre.entries_spec()[idx].entry_id(),
            x.entry_progress() == pre.entries_spec()[idx].entry_progress(),
            post.updated_from(pre, idx, x),
        ensures
            post.quorum_accepted_spec() == pre.quorum_accepted_spec(),
            post.entries_spec() == pre.entries_spec().update(idx, x),
            entry_pairs(post.entries_spec()) == entry_pairs(pre.entries_spec()),
    {
        Self::lemma_quorum_accepted_moves_only_on_crossing(post, pre, idx, x);
        assert(entry_pairs(post.entries_spec()) =~= entry_pairs(pre.entries_spec()));
    }
}

/// Raising one voter's progress keeps every voter with progress at least `q`
/// at progress at least `q`.
proof fn lemma_update_keeps_at_least<E: VecProgressEntry>(s: Seq<E>, vc: int, qa: u64, idx: int, x: E, q: u64)
    requires
        0 <= idx < vc <= s.len(),
        x.entry_id() == s[idx].entry_id(),
        x.entry_progress() >= s[idx].entry_progress(),
    ensures
        ids_at_least(s.take(vc), q as int).subset_of(ids_at_least(after_update(s, vc, qa, idx, x).take(vc), q as int)),
{
    let u = after_update(s, vc, qa, idx, x);
    lemma_after_update_voters(s, vc, qa, idx, x);
    lemma_after_update_keeps_voters(s, vc, qa, idx, x);
    let sv = s.take(vc);
    let uv = u.take(vc);
    assert forall|id: IdOf<E>| ids_at_least(sv, q as int).contains(id) implies ids_at_least(uv, q as int).contains(id) by {
        let m = choose|m: int| 0 <= m < sv.len() && #[trigger] sv[m].entry_id() == id && sv[m].entry_progress() >= q;
        assert(sv[m] == s[m]);
        let k = if m == idx {
            choose|k: int| 0 <= k < vc && #[trigger] u[k] == x
        } else {
            choose|k: int| 0 <= k < vc && #[trigger] u[k] == #[trigger] s[m]
        };
        assert(uv[k] == u[k]);
        assert(uv[k].entry_id() == id && uv[k].entry_progress() >= q);
    }
}

/// With voters above `q` sorted first and none of their progress values
/// accepted, a quorum among the voters with progress at least `q` needs a
/// voter at exactly `q`.
proof fn lemma_accepted_at_least_has_voter_at<E: VecProgressEntry, QS: QuorumSet<Id = E::Id>>(qs: QS, u: Seq<E>, vc: int, q: u64)
    requires
        0 <= vc <= u.len(),
        sorted_above(u, vc, q),
        none_accepted_above(qs, u.take(vc), q),
        qs.accepts(ids_at_least(u.take(vc), q as int)),
        exists|k: int| 0 <= k < vc && #[trigger] u[k].entry_progress() >= q,
    ensures
        exists|k: int| 0 <= k < vc && #[trigger] u.take(vc)[k].entry_progress() == q,
{
    let uv = u.take(vc);
    if !exists|k: int| 0 <= k < vc && #[trigger] uv[k].entry_progress() == q {
        let l = first_not_above(u, 0, vc, q);
        lemma_first_not_above(u, 0, vc, q);
        let kb = choose|kb: int| 0 <= kb < vc && #[trigger] u[kb].entry_progress() >= q;
        assert(uv[kb] == u[kb]);
        assert(kb < l) by {
            if kb > l {
                assert(u[l].entry_progress() >= u[kb].entry_progress());
            }
        }
        let m = u[l - 1].entry_progress();
        let b = ids_at_least(uv, q as int);
        let c = ids_at_least(uv, m as int);
        assert(b.subset_of(c)) by {
            assert forall|id: IdOf<E>| b.contains(id) implies c.contains(id) by {
                let k = choose|k: int| 0 <= k < uv.len() && #[trigger] uv[k].entry_id() == id && uv[k].entry_progress() >= q;
                assert(uv[k] == u[k]);
                assert(k < l) by {
                    if k > l {
                        assert(u[l].entry_progress() >= u[k].entry_progress());
                    }
                }
                if k < l - 1 {
                    assert(u[k].entry_progress() >= u[l - 1].entry_progress());
                }
            }
        }
        qs.lemma_upward_closed(b, c);
        assert(uv[l - 1] == u[l - 1]);
        assert(uv[l - 1].entry_progress() > q);
    }
}

impl<Entry: VecProgressEntry, QS: QuorumSet<Id = Entry::Id>> VecProgress<Entry, QS> {
    /// An update keeps the quorum-accepted value the greatest voter progress
    /// that a quorum accepts, or `0` when there is none, whenever it was so
    /// before: a tracker built by [`VecProgress::new`] and changed only by
    /// updates always reports the greatest accepted value.
    pub proof fn lemma_update_keeps_greatest_accepted(post: &Self, pre: &Self, idx: int, x: Entry)
        requires
            pre.wf(),
            post.wf(),
            0 <= idx < pre.entries_spec().len(),
            x.entry_id() == pre.entries_spec()[idx].entry_id(),
            x.entry_progress() >= pre.entries_spec()[idx].entry_progress(),
            post.updated_from(pre, idx, x),
            is_greatest_accepted(pre.quorum_set_spec(), pre.voters_spec(), pre.quorum_accepted_spec()),
        ensures
            is_greatest_accepted(post.quorum_set_spec(), post.voters_spec(), post.quorum_accepted_spec()),
    {
        let s = pre.entries_spec();
        let u = post.entries_spec();
        let vc = pre.voter_count_spec() as int;
        let q = pre.quorum_accepted_spec();
        let qs = pre.quorum_set_spec();
        if post.quorum_accepted_spec() == q && q != 0 {
            let sv = s.take(vc);
            let uv = u.take(vc);
            assert(accepted_value(qs, sv, q));
            let i = choose|i: int| 0 <= i < sv.len() && #[trigger] sv[i].entry_progress() == q && qs.accepts(ids_at_least(sv, q as int));
            lemma_after_update_voters(s, vc, q, idx, x);
            if idx >= vc {
                assert(uv == sv);
            } else {
                lemma_update_keeps_at_least(s, vc, q, idx, x, q);
                qs.lemma_upward_closed(ids_at_least(sv, q as int), ids_at_least(uv, q as int));
                assert(sv[i] == s[i]);
                assert(ids_at_least(sv, q as int).contains(s[i].entry_id()));
                assert(ids_at_least(uv, q as int).contains(s[i].entry_id()));
                let kb = choose|kb: int| 0 <= kb < uv.len() && #[trigger] uv[kb].entry_id() == s[i].entry_id() && uv[kb].entry_progress() >= q;
                assert(uv[kb] == u[kb]);
                assert(u[kb].entry_progress() >= q);
                lemma_accepted_at_least_has_voter_at(qs, u, vc, q);
                let k = choose|k: int| 0 <= k < vc && #[trigger] uv[k].entry_progress() == q;
                assert(accepted_value(qs, uv, q));
            }
        }
    }
}

/// `u` is `s` with the entry at `idx` replaced by `x`, other entries kept: a
/// learner stays at its position, another voter stays a voter, and the new
/// entry is a voter exactly when the old one was.
pub open spec fn others_kept<E>(s: Seq<E>, u: Seq<E>, vc: int, idx: int, x: E) -> bool {
    &&& u.len() == s.len()
    &&& forall|j: int| vc <= j < s.len() && j != idx ==> #[trigger] u[j] == s[j]
    &&& (idx >= vc ==> u[idx] == x)
    &&& forall|j: int| 0 <= j < vc && j != idx ==> u.take(vc).contains(#[trigger] s[j])
    &&& (idx < vc ==> u.take(vc).contains(x))
}

proof fn lemma_after_update_others<E: VecProgressEntry>(s: Seq<E>, vc: int, qa: u64, idx: int, x: E)
    requires
        0 <= idx < s.len(),
        0 <= vc <= s.len(),
        x.entry_progress() >= s[idx].entry_progress(),
    ensures
        others_kept(s, after_update(s, vc, qa, idx, x), vc, idx, x),
{
    let u = after_update(s, vc, qa, idx, x);
    lemma_after_update_voters(s, vc, qa, idx, x);
    if idx < vc {
        lemma_after_update_keeps_voters(s, vc, qa, idx, x);
        assert forall|j: int| 0 <= j < vc && j != idx implies u.take(vc).contains(#[trigger] s[j]) by {
            let k = choose|k: int| 0 <= k < vc && #[trigger] u[k] == #[trigger] s[j];
            assert(u.take(vc)[k] == u[k]);
        }
        let k = choose|k: int| 0 <= k < vc && #[trigger] u[k] == x;
        assert(u.take(vc)[k] == u[k]);
        if x.entry_progress() > s[idx].entry_progress() && x.entry_progress() > qa {
            let t = up_target(s, idx, x.entry_progress());
            lemma_up_target(s, idx, x.entry_progress());
            lemma_moved_up_index(s, idx, t, x);
            assert forall|j: int| vc <= j < s.len() && j != idx implies #[trigger] u[j] == s[j] by {
                assert(j > idx);
            }
        } else {
            assert forall|j: int| vc <= j < s.len() && j != idx implies #[trigger] u[j] == s[j] by {
            }
        }
    } else {
        assert(u == s.update(idx, x));
        assert forall|j: int| vc <= j < s.len() && j != idx implies #[trigger] u[j] == s[j] by {
        }
        assert forall|j: int| 0 <= j < vc && j != idx implies u.take(vc).contains(#[trigger] s[j]) by {
            assert(u.take(vc)[j] == s[j]);
        }
    }
}

proof fn lemma_after_reset_others<E: VecProgressEntry>(s: Seq<E>, vc: int, idx: int, x: E)
    requires
        0 <= idx < s.len(),
        0 <= vc <= s.len(),
        x.entry_progress() <= s[idx].entry_progress(),
    ensures
        others_kept(s, after_reset(s, vc, idx, x), vc, idx, x),
{
    let u = after_reset(s, vc, idx, x);
    if idx < vc && x.entry_progress() < s[idx].entry_progress() {
        let d = down_target(s, idx, x.entry_progress(), vc);
        lemma_down_target(s, idx, x.entry_progress(), vc);
        lemma_moved_down_index(s, idx, d, x);
        assert forall|j: int| 0 <= j < vc && j != idx implies u.take(vc).contains(#[trigger] s[j]) by {
            if j < idx {
                assert(u.take(vc)[j] == s[j]);
            } else if j <= d {
                assert(u.take(vc)[j - 1] == s[j]);
            } else {
                assert(u.take(vc)[j] == s[j]);
            }
        }
        assert(u.take(vc)[d] == x);
        assert forall|j: int| vc <= j < s.len() && j != idx implies #[trigger] u[j] == s[j] by {
            assert(j > d);
        }
    } else {
        assert(u == s.update(idx, x));
        assert forall|j: int| 0 <= j < vc && j != idx implies u.take(vc).contains(#[trigger] s[j]) by {
            assert(u.take(vc)[j] == s[j]);
        }
        assert forall|j: int| vc <= j < s.len() && j != idx implies #[trigger] u[j] == s[j] by {
        }
        if idx < vc {
            assert(u.take(vc)[idx] == x);
        }
    }
}

impl<Entry: VecProgressEntry, QS: QuorumSet<Id = Entry::Id>> VecProgress<Entry, QS> {
    /// Setting an entry's progress to the value it already has leaves the
    /// tracker as it was: the same entries in the same order and the same
    /// quorum-accepted value.
    pub proof fn lemma_update_to_current_keeps_state(post: &Self, pre: &Self, idx: int)
        requires
            pre.wf(),
            0 <= idx < pre.entries_spec().len(),
            post.updated_from(
                pre,
                idx,
                pre.entries_spec()[idx].with_progress(pre.entries_spec()[idx].entry_progress()),
            ),
        ensures
            post.entries_spec() == pre.entries_spec(),
            post.quorum_accepted_spec() == pre.quorum_accepted_spec(),
            post.voter_count_spec() == pre.voter_count_spec(),
    {
        let e = pre.entries_spec()[idx];
        e.lemma_with_progress(e.entry_progress());
        Self::lemma_same_progress_keeps_state(post, pre, idx, e);
        assert(pre.entries_spec().update(idx, e) =~= pre.entries_spec());
    }

    /// An update keeps every other entry: learners stay where they are, the
    /// other voters stay voters, and the updated entry keeps its voter
    /// status; the voter and learner IDs stay those the tracker had.
    pub proof fn lemma_update_keeps_others(post: &Self, pre: &Self, idx: int, x: Entry)
        requires
            pre.wf(),
            0 <= idx < pre.entries_spec().len(),
            x.entry_progress() >= pre.entries_spec()[idx].entry_progress(),
            post.updated_from(pre, idx, x),
        ensures
            others_kept(pre.entries_spec(), post.entries_spec(), pre.voter_count_spec() as int, idx, x),
    {
        pre.lemma_wf_properties();
        lemma_after_update_others(
            pre.entries_spec(),
            pre.voter_count_spec() as int,
            pre.quorum_accepted_spec(),
            idx,
            x,
        );
    }

    /// A reset keeps every other entry in the same way as an update, and the
    /// quorum-accepted value.
    pub proof fn lemma_reset_keeps_others(post: &Self, pre: &Self, idx: int, x: Entry)
        requires
            pre.wf(),
            0 <= idx < pre.entries_spec().len(),
            x.entry_progress() <= pre.entries_spec()[idx].entry_progress(),
            post.reset_from(pre, idx, x),
        ensures
            others_kept(pre.entries_spec(), post.entries_spec(), pre.voter_count_spec() as int, idx, x),
            post.quorum_accepted_spec() == pre.quorum_accepted_spec(),
    {
        pre.lemma_wf_properties();
        lemma_after_reset_others(pre.entries_spec(), pre.voter_count_spec() as int, idx, x);
    }

    /// Updates and resets keep the tracked IDs: the voter IDs, the learner
    /// IDs in their order, and so whether each ID is a voter, a learner or
    /// not tracked at all.
    pub proof fn lemma_change_keeps_ids(post: &Self, pre: &Self, idx: int, x: Entry)
        requires
            pre.wf(),
            post.wf(),
            0 <= idx < pre.entries_spec().len(),
            x.entry_id() == pre.entries_spec()[idx].entry_id(),
            (x.entry_progress() >= pre.entries_spec()[idx].entry_progress() && post.updated_from(pre, idx, x)) || (
            x.entry_progress() <= pre.entries_spec()[idx].entry_progress() && post.reset_from(pre, idx, x)),
        ensures
            post.voter_count_spec() == pre.voter_count_spec(),
            entry_ids(post.voters_spec()).to_set() == entry_ids(pre.voters_spec()).to_set(),
            entry_ids(post.entries_spec().skip(post.voter_count_spec() as int)) == entry_ids(
                pre.entries_spec().skip(pre.voter_count_spec() as int),
            ),
            entry_ids(post.entries_spec()).to_set() == entry_ids(pre.entries_spec()).to_set(),
            forall|x: IdOf<Entry>| #[trigger] post.id_status(x) == pre.id_status(x),
    {
        let s = pre.entries_spec();
        let u = post.entries_spec();
        let vc = pre.voter_count_spec() as int;
        pre.lemma_wf_properties();
        post.lemma_wf_properties();
        if x.entry_progress() >= s[idx].entry_progress() && post.updated_from(pre, idx, x) {
            lemma_after_update_others(s, vc, pre.quorum_accepted_spec(), idx, x);
        } else {
            lemma_after_reset_others(s, vc, idx, x);
        }
        assert(others_kept(s, u, vc, idx, x));
        assert(entry_ids(u.skip(vc)) =~= entry_ids(s.skip(vc))) by {
            assert forall|j: int| 0 <= j < s.len() - vc implies #[trigger] entry_ids(u.skip(vc))[j] == entry_ids(
                s.skip(vc),
            )[j] by {
                assert(u.skip(vc)[j] == u[j + vc] && s.skip(vc)[j] == s[j + vc]);
            }
        }
        let su = entry_ids(u);
        let ss = entry_ids(s);
        assert forall|y: IdOf<Entry>| su.to_set().contains(y) implies ss.to_set().contains(y) by {
            let k = choose|k: int| 0 <= k < su.len() && su[k] == y;
            if k < vc {
                assert(entry_ids(u.take(vc))[k] == y);
                assert(entry_ids(s.take(vc)).to_set().contains(y));
                let m = choose|m: int| 0 <= m < vc && #[trigger] entry_ids(s.take(vc))[m] == y;
                assert(ss[m] == y);
            } else {
                assert(entry_ids(u.skip(vc))[k - vc] == y);
                assert(ss[k] == entry_ids(s.skip(vc))[k - vc]);
            }
        }
        assert forall|y: IdOf<Entry>| ss.to_set().contains(y) implies su.to_set().contains(y) by {
            let k = choose|k: int| 0 <= k < ss.len() && ss[k] == y;
            if k < vc {
                assert(entry_ids(s.take(vc))[k] == y);
                assert(entry_ids(u.take(vc)).to_set().contains(y));
                let m = choose|m: int| 0 <= m < vc && #[trigger] entry_ids(u.take(vc))[m] == y;
                assert(su[m] == y);
            } else {
                assert(entry_ids(s.skip(vc))[k - vc] == y);
                assert(su[k] == entry_ids(u.skip(vc))[k - vc]);
            }
        }
        assert(su.to_set() =~= ss.to_set());
        Self::lemma_status_kept(post, pre);
    }
}

// ---------------------------------------------------------------------------
// Trackers built from the same entries.

/// `x` comes before `y` among fully sorted voters.
pub open spec fn voter_before<E: VecProgressEntry>(x: E, y: E) -> bool {
    x.entry_progress() > y.entry_progress() || (x.entry_progress() == y.entry_progress() && <E::Id as NodeId>::id_lt(
        x.entry_id(),
        y.entry_id(),
    ))
}

/// `x` comes before `y` among learners.
pub open spec fn learner_before<E: VecProgressEntry>(x: E, y: E) -> bool {
    <E::Id as NodeId>::id_lt(x.entry_id(), y.entry_id())
}

/// Two sequences in strictly increasing order of `lt` with the same elements
/// are the same sequence.
proof fn lemma_sorted_same_set<T>(a: Seq<T>, b: Seq<T>, lt: spec_fn(T, T) -> bool)
    requires
        forall|x: T, y: T| #[trigger] lt(x, y) ==> !lt(y, x),
        forall|i: int, j: int| 0 <= i < j < a.len() ==> lt(#[trigger] a[i], #[trigger] a[j]),
        forall|i: int, j: int| 0 <= i < j < b.len() ==> lt(#[trigger] b[i], #[trigger] b[j]),
        a.to_set() == b.to_set(),
    ensures
        a == b,
    decreases a.len(),
{
    if a.len() == 0 {
        if b.len() > 0 {
            assert(b.to_set().contains(b[0]));
        }
        assert(a =~= b);
    } else {
        assert(a.to_set().contains(a[0]));
        let k = choose|k: int| 0 <= k < b.len() && b[k] == a[0];
        assert(b.to_set().contains(b[0]));
        let m = choose|m: int| 0 <= m < a.len() && a[m] == b[0];
        if k > 0 {
            assert(lt(b[0], b[k]));
            if m > 0 {
                assert(lt(a[0], a[m]));
            }
        }
        assert(a[0] == b[0]);
        let a1 = a.drop_first();
        let b1 = b.drop_first();
        assert forall|y: T| a1.to_set().contains(y) implies b1.to_set().contains(y) by {
            let i = choose|i: int| 0 <= i < a1.len() && a1[i] == y;
            assert(a[i + 1] == y);
            assert(lt(a[0], a[i + 1]));
            assert(a.to_set().contains(y));
            let j = choose|j: int| 0 <= j < b.len() && b[j] == y;
            if j == 0 {
                assert(lt(y, y));
            }
            assert(b1[j - 1] == y);
        }
        assert forall|y: T| b1.to_set().contains(y) implies a1.to_set().contains(y) by {
            let i = choose|i: int| 0 <= i < b1.len() && b1[i] == y;
            assert(b[i + 1] == y);
            assert(lt(b[0], b[i + 1]));
            assert(b.to_set().contains(y));
            let j = choose|j: int| 0 <= j < a.len() && a[j] == y;
            if j == 0 {
                assert(lt(y, y));
            }
            assert(a1[j - 1] == y);
        }
        assert(a1.to_set() =~= b1.to_set());
        assert forall|i: int, j: int| 0 <= i < j < a1.len() implies lt(#[trigger] a1[i], #[trigger] a1[j]) by {
            assert(a1[i] == a[i + 1] && a1[j] == a[j + 1]);
        }
        assert forall|i: int, j: int| 0 <= i < j < b1.len() implies lt(#[trigger] b1[i], #[trigger] b1[j]) by {
            assert(b1[i] == b[i + 1] && b1[j] == b[j + 1]);
        }
        lemma_sorted_same_set(a1, b1, lt);
        assert(a =~= seq![a[0]] + a1);
        assert(b =~= seq![b[0]] + b1);
    }
}

/// The greatest accepted voter progress is unique.
proof fn lemma_greatest_accepted_unique<E: VecProgressEntry, QS: QuorumSet<Id = E::Id>>(
    qs: QS,
    voters: Seq<E>,
    q1: u64,
    q2: u64,
)
    requires
        is_greatest_accepted(qs, voters, q1),
        is_greatest_accepted(qs, voters, q2),
    ensures
        q1 == q2,
{
    if q1 < q2 && accepted_value(qs, voters, q2) {
        let i = choose|i: int| 0 <= i < voters.len() && #[trigger] voters[i].entry_progress() == q2 && qs.accepts(
            ids_at_least(voters, q2 as int),
        );
        assert(voters[i].entry_progress() > q1);
    }
    if q2 < q1 && accepted_value(qs, voters, q1) {
        let i = choose|i: int| 0 <= i < voters.len() && #[trigger] voters[i].entry_progress() == q1 && qs.accepts(
            ids_at_least(voters, q1 as int),
        );
        assert(voters[i].entry_progress() > q2);
    }
}

impl<Entry: VecProgressEntry, QS: QuorumSet<Id = Entry::Id>> VecProgress<Entry, QS> {
    /// A voter entry of `p` is a voter entry of `q` when both hold the same
    /// entries over the same quorum set; so is a learner entry.
    proof fn lemma_entry_in_other(p: &Self, q: &Self, e: Entry)
        requires
            p.wf(),
            q.wf(),
            p.quorum_set_spec() == q.quorum_set_spec(),
            p.entries_spec().to_set() == q.entries_spec().to_set(),
            p.entries_spec().to_set().contains(e),
        ensures
            p.voters_spec().to_set().contains(e) ==> q.voters_spec().to_set().contains(e),
            p.entries_spec().skip(p.voter_count_spec() as int).to_set().contains(e) ==> q.entries_spec().skip(
                q.voter_count_spec() as int,
            ).to_set().contains(e),
    {
        p.lemma_wf_properties();
        q.lemma_wf_properties();
        let qs = p.quorum_set_spec();
        let ps = p.entries_spec();
        let qe = q.entries_spec();
        let pv = p.voter_count_spec() as int;
        let qv = q.voter_count_spec() as int;
        assert(qe.to_set().contains(e));
        let j = choose|j: int| 0 <= j < qe.len() && qe[j] == e;
        assert(entry_ids(qe)[j] == e.entry_id());
        if ps.take(pv).to_set().contains(e) {
            let i = choose|i: int| 0 <= i < pv && ps.take(pv)[i] == e;
            assert(entry_ids(ps.take(pv))[i] == e.entry_id());
            assert(qs.voters().contains(e.entry_id()));
            if j >= qv {
                let m = choose|m: int| 0 <= m < qv && #[trigger] entry_ids(qe.take(qv))[m] == e.entry_id();
                assert(entry_ids(qe)[m] == entry_ids(qe)[j]);
            }
            assert(qe.take(qv)[j] == e);
        }
        if ps.skip(pv).to_set().contains(e) {
            let i = choose|i: int| 0 <= i < ps.len() - pv && ps.skip(pv)[i] == e;
            assert(ps[i + pv] == e);
            assert(entry_ids(ps)[i + pv] == e.entry_id());
            if j < qv {
                assert(entry_ids(qe.take(qv))[j] == e.entry_id());
                assert(qs.voters().contains(e.entry_id()));
                let m = choose|m: int| 0 <= m < pv && #[trigger] entry_ids(ps.take(pv))[m] == e.entry_id();
                assert(entry_ids(ps)[m] == entry_ids(ps)[i + pv]);
            }
            assert(qe.skip(qv)[j - qv] == e);
        }
    }

    proof fn lemma_parts_of_same_entries(a: &Self, b: &Self)
        requires
            a.wf(),
            b.wf(),
            a.quorum_set_spec() == b.quorum_set_spec(),
            a.entries_spec().to_set() == b.entries_spec().to_set(),
        ensures
            a.voters_spec().to_set() == b.voters_spec().to_set(),
            a.entries_spec().skip(a.voter_count_spec() as int).to_set() == b.entries_spec().skip(
                b.voter_count_spec() as int,
            ).to_set(),
    {
        a.lemma_wf_properties();
        b.lemma_wf_properties();
        let (sa, sb) = (a.entries_spec(), b.entries_spec());
        let (va, vb) = (a.voter_count_spec() as int, b.voter_count_spec() as int);
        assert forall|e: Entry| sa.take(va).to_set().contains(e) <==> sb.take(vb).to_set().contains(e) by {
            if sa.take(va).to_set().contains(e) {
                let i = choose|i: int| 0 <= i < va && sa.take(va)[i] == e;
                assert(sa[i] == e);
                assert(sa.to_set().contains(e));
                Self::lemma_entry_in_other(a, b, e);
            }
            if sb.take(vb).to_set().contains(e) {
                let i = choose|i: int| 0 <= i < vb && sb.take(vb)[i] == e;
                assert(sb[i] == e);
                assert(sb.to_set().contains(e));
                Self::lemma_entry_in_other(b, a, e);
            }
        }
        assert(sa.take(va).to_set() =~= sb.take(vb).to_set());
        assert forall|e: Entry| sa.skip(va).to_set().contains(e) <==> sb.skip(vb).to_set().contains(e) by {
            if sa.skip(va).to_set().contains(e) {
                let i = choose|i: int| 0 <= i < sa.len() - va && sa.skip(va)[i] == e;
                assert(sa[i + va] == e);
                assert(sa.to_set().contains(e));
                Self::lemma_entry_in_other(a, b, e);
            }
            if sb.skip(vb).to_set().contains(e) {
                let i = choose|i: int| 0 <= i < sb.len() - vb && sb.skip(vb)[i] == e;
                assert(sb[i + vb] == e);
                assert(sb.to_set().contains(e));
                Self::lemma_entry_in_other(b, a, e);
            }
        }
        assert(sa.skip(va).to_set() =~= sb.skip(vb).to_set());
    }

    /// Two trackers over the same quorum set that hold the same entries, with
    /// voters fully sorted, learners in ID order and the greatest accepted
    /// value recorded, are the same tracker. Both [`VecProgress::new`] and
    /// [`VecProgress::upgrade_quorum_set`] build such trackers, so an upgrade
    /// gives the tracker that `new` gives when the default entries are the
    /// old entries of the IDs that stay.
    pub proof fn lemma_same_entries_same_tracker(a: &Self, b: &Self)
        requires
            a.wf(),
            b.wf(),
            a.quorum_set_spec() == b.quorum_set_spec(),
            fully_sorted(a.voters_spec()),
            fully_sorted(b.voters_spec()),
            views_sorted::<Entry::Id>(entry_ids(a.entries_spec().skip(a.voter_count_spec() as int))),
            views_sorted::<Entry::Id>(entry_ids(b.entries_spec().skip(b.voter_count_spec() as int))),
            is_greatest_accepted(a.quorum_set_spec(), a.voters_spec(), a.quorum_accepted_spec()),
            is_greatest_accepted(b.quorum_set_spec(), b.voters_spec(), b.quorum_accepted_spec()),
            a.entries_spec().to_set() == b.entries_spec().to_set(),
        ensures
            a.entries_spec() == b.entries_spec(),
            a.voter_count_spec() == b.voter_count_spec(),
            a.quorum_accepted_spec() == b.quorum_accepted_spec(),
    {
        let (sa, sb) = (a.entries_spec(), b.entries_spec());
        let (va, vb) = (a.voter_count_spec() as int, b.voter_count_spec() as int);
        a.lemma_wf_properties();
        Self::lemma_parts_of_same_entries(a, b);
        let vlt = |x: Entry, y: Entry| voter_before(x, y);
        let llt = |x: Entry, y: Entry| learner_before(x, y);
        assert forall|x: Entry, y: Entry| #[trigger] vlt(x, y) implies !vlt(y, x) by {
            <Entry::Id as NodeId>::lemma_id_order(x.entry_id(), y.entry_id());
        }
        assert forall|x: Entry, y: Entry| #[trigger] llt(x, y) implies !llt(y, x) by {
            <Entry::Id as NodeId>::lemma_id_order(x.entry_id(), y.entry_id());
        }
        assert forall|i: int, j: int| 0 <= i < j < sa.take(va).len() implies vlt(#[trigger] sa.take(va)[i], #[trigger] sa.take(va)[j]) by {
            assert(a.voters_spec()[i] == sa.take(va)[i] && a.voters_spec()[j] == sa.take(va)[j]);
        }
        assert forall|i: int, j: int| 0 <= i < j < sb.take(vb).len() implies vlt(#[trigger] sb.take(vb)[i], #[trigger] sb.take(vb)[j]) by {
            assert(b.voters_spec()[i] == sb.take(vb)[i] && b.voters_spec()[j] == sb.take(vb)[j]);
        }
        lemma_sorted_same_set(sa.take(va), sb.take(vb), vlt);
        assert forall|i: int, j: int| 0 <= i < j < sa.skip(va).len() implies llt(#[trigger] sa.skip(va)[i], #[trigger] sa.skip(va)[j]) by {
            assert(entry_ids(sa.skip(va))[i] == sa.skip(va)[i].entry_id());
            assert(entry_ids(sa.skip(va))[j] == sa.skip(va)[j].entry_id());
        }
        assert forall|i: int, j: int| 0 <= i < j < sb.skip(vb).len() implies llt(#[trigger] sb.skip(vb)[i], #[trigger] sb.skip(vb)[j]) by {
            assert(entry_ids(sb.skip(vb))[i] == sb.skip(vb)[i].entry_id());
            assert(entry_ids(sb.skip(vb))[j] == sb.skip(vb)[j].entry_id());
        }
        lemma_sorted_same_set(sa.skip(va), sb.skip(vb), llt);
        assert(va == vb);
        assert(sa =~= sa.take(va) + sa.skip(va));
        assert(sb =~= sb.take(vb) + sb.skip(vb));
        lemma_greatest_accepted_unique(a.quorum_set_spec(), a.voters_spec(), a.quorum_accepted_spec(), b.quorum_accepted_spec());
    }
}

/// `default_entry` returns one entry for each ID.
pub open spec fn one_entry_per_id<E: VecProgressEntry, F: Fn(E::Id) -> E>(default_entry: F) -> bool {
    forall|i: E::Id, j: E::Id, a: E, b: E|
        i@ == j@ && #[trigger] default_entry.ensures((i,), a) && #[trigger] default_entry.ensures((j,), b) ==> a == b
}

/// The entry for an ID is unique when the pool holds each ID once and the
/// default entries are one per ID.
proof fn lemma_entry_for_unique<E: VecProgressEntry, F: Fn(E::Id) -> E>(
    pool: Seq<E>,
    default_entry: F,
    id: IdOf<E>,
    a: E,
    b: E,
)
    requires
        entry_ids(pool).no_duplicates(),
        one_entry_per_id(default_entry),
        entry_for(pool, default_entry, id, a),
        entry_for(pool, default_entry, id, b),
    ensures
        a == b,
{
    if entry_ids(pool).contains(id) {
        let i = choose|i: int| 0 <= i < pool.len() && pool[i] == a;
        let j = choose|j: int| 0 <= j < pool.len() && pool[j] == b;
        assert(entry_ids(pool)[i] == entry_ids(pool)[j]);
    } else {
        let x = choose|x: E::Id| x@ == id && #[trigger] default_entry.ensures((x,), a);
        let y = choose|y: E::Id| y@ == id && #[trigger] default_entry.ensures((y,), b);
        assert(default_entry.ensures((x,), a) && default_entry.ensures((y,), b));
    }
}

impl<Entry: VecProgressEntry, QS: QuorumSet<Id = Entry::Id>> VecProgress<Entry, QS> {
    /// An upgrade gives the tracker that `new` gives for the same quorum set
    /// and learner IDs when `new`'s default entries are the entries the
    /// tracker had for the IDs it tracked, and those of `default_entry` for
    /// the other IDs: the same entries in the same order, the same voter
    /// count and the same quorum-accepted value.
    ///
    /// `upgraded` is what [`VecProgress::upgrade_quorum_set`] guarantees of
    /// its result for `pre`, and `fresh` what [`VecProgress::new`]
    /// guarantees with `defaults`.
    pub proof fn lemma_upgrade_equals_new<F: Fn(Entry::Id) -> Entry, G: Fn(Entry::Id) -> Entry>(
        upgraded: &Self,
        fresh: &Self,
        pre: &Self,
        quorum_set: QS,
        learner_ids: Seq<Entry::Id>,
        default_entry: F,
        defaults: G,
    )
        requires
            pre.wf(),
            one_entry_per_id(default_entry),
            forall|i: Entry::Id, e: Entry|
                #[trigger] defaults.ensures((i,), e) <==> entry_for(pre.entries_spec(), default_entry, i@, e),
            upgraded.wf(),
            upgraded.quorum_set_spec() == quorum_set,
            fully_sorted(upgraded.voters_spec()),
            views_sorted::<Entry::Id>(entry_ids(upgraded.entries_spec().skip(upgraded.voter_count_spec() as int))),
            entry_ids(upgraded.entries_spec().skip(upgraded.voter_count_spec() as int)).to_set() == view_set(
                learner_ids,
            ).difference(quorum_set.voters()),
            forall|i: int|
                0 <= i < upgraded.entries_spec().len() ==> entry_for(
                    pre.entries_spec(),
                    default_entry,
                    #[trigger] upgraded.entries_spec()[i].entry_id(),
                    upgraded.entries_spec()[i],
                ),
            is_greatest_accepted(quorum_set, upgraded.voters_spec(), upgraded.quorum_accepted_spec()),
            fresh.wf(),
            fresh.quorum_set_spec() == quorum_set,
            fully_sorted(fresh.voters_spec()),
            views_sorted::<Entry::Id>(entry_ids(fresh.entries_spec().skip(fresh.voter_count_spec() as int))),
            entry_ids(fresh.entries_spec().skip(fresh.voter_count_spec() as int)).to_set() == view_set(
                learner_ids,
            ).difference(quorum_set.voters()),
            forall|i: int| 0 <= i < fresh.entries_spec().len() ==> made_by(defaults, #[trigger] fresh.entries_spec()[i]),
            is_greatest_accepted(quorum_set, fresh.voters_spec(), fresh.quorum_accepted_spec()),
        ensures
            upgraded.entries_spec() == fresh.entries_spec(),
            upgraded.voter_count_spec() == fresh.voter_count_spec(),
            upgraded.quorum_accepted_spec() == fresh.quorum_accepted_spec(),
    {
        let learners = view_set(learner_ids);
        let (su, sf) = (upgraded.entries_spec(), fresh.entries_spec());
        pre.lemma_wf_properties();
        upgraded.lemma_wf_properties();
        fresh.lemma_wf_properties();
        upgraded.lemma_status_from_sets(quorum_set.voters(), learners);
        fresh.lemma_status_from_sets(quorum_set.voters(), learners);
        // Both hold, for every ID they track, the one entry for that ID.
        assert forall|e: Entry| su.to_set().contains(e) implies sf.to_set().contains(e) by {
            let i = choose|i: int| 0 <= i < su.len() && su[i] == e;
            let x = e.entry_id();
            assert(entry_ids(su)[i] == x);
            assert(upgraded.id_status(x) == fresh.id_status(x));
            upgraded.lemma_tracked(x);
            fresh.lemma_tracked(x);
            let j = choose|j: int| 0 <= j < sf.len() && #[trigger] entry_ids(sf)[j] == x;
            assert(made_by(defaults, sf[j]));
            let y = choose|y: Entry::Id| y@ == sf[j].entry_id() && #[trigger] defaults.ensures((y,), sf[j]);
            assert(defaults.ensures((y,), sf[j]));
            lemma_entry_for_unique(pre.entries_spec(), default_entry, x, e, sf[j]);
        }
        assert forall|e: Entry| sf.to_set().contains(e) implies su.to_set().contains(e) by {
            let j = choose|j: int| 0 <= j < sf.len() && sf[j] == e;
            let x = e.entry_id();
            assert(made_by(defaults, sf[j]));
            let y = choose|y: Entry::Id| y@ == x && #[trigger] defaults.ensures((y,), sf[j]);
            assert(defaults.ensures((y,), sf[j]));
            assert(entry_ids(sf)[j] == x);
            assert(upgraded.id_status(x) == fresh.id_status(x));
            upgraded.lemma_tracked(x);
            fresh.lemma_tracked(x);
            let i = choose|i: int| 0 <= i < su.len() && #[trigger] entry_ids(su)[i] == x;
            assert(entry_for(pre.entries_spec(), default_entry, su[i].entry_id(), su[i]));
            lemma_entry_for_unique(pre.entries_spec(), default_entry, x, e, su[i]);
        }
        assert(su.to_set() =~= sf.to_set());
        Self::lemma_same_entries_same_tracker(upgraded, fresh);
    }
}

// ---------------------------------------------------------------------------
// Checking the voter order.

/// The first position from `k` below `vc` whose progress is not above `qa`,
/// or `vc`.
pub open spec fn first_not_above<E: VecProgressEntry>(s: Seq<E>, k: int, vc: int, qa: u64) -> int
    decreases vc - k,
{
    if k >= vc {
        vc
    } else if s[k].entry_progress() <= qa {
        k
    } else {
        first_not_above(s, k + 1, vc, qa)
    }
}

/// The first position `j` from `k` with `j + 1 < end` whose progress is
/// below that of the next entry, or `-1`.
pub open spec fn first_ascent<E: VecProgressEntry>(s: Seq<E>, k: int, end: int) -> int
    decreases end - k,
{
    if k + 1 >= end {
        -1
    } else if s[k].entry_progress() < s[k + 1].entry_progress() {
        k
    } else {
        first_ascent(s, k + 1, end)
    }
}

/// The first position from `k` below `vc` whose progress is above `qa`, or
/// `vc`.
pub open spec fn first_above<E: VecProgressEntry>(s: Seq<E>, k: int, vc: int, qa: u64) -> int
    decreases vc - k,
{
    if k >= vc {
        vc
    } else if s[k].entry_progress() > qa {
        k
    } else {
        first_above(s, k + 1, vc, qa)
    }
}

/// The ID and progress of every entry.
pub open spec fn entry_pairs<E: VecProgressEntry>(s: Seq<E>) -> Seq<(IdOf<E>, u64)> {
    s.map_values(|e: E| (e.entry_id(), e.entry_progress()))
}

/// The position, ID and progress of the entry at `i`.
pub open spec fn entry_at<E: VecProgressEntry>(s: Seq<E>, i: int) -> (usize, IdOf<E>, u64) {
    (i as usize, s[i].entry_id(), s[i].entry_progress())
}

proof fn lemma_first_not_above<E: VecProgressEntry>(s: Seq<E>, k: int, vc: int, qa: u64)
    requires
        0 <= k <= vc <= s.len(),
    ensures
        k <= first_not_above(s, k, vc, qa) <= vc,
        forall|j: int| k <= j < first_not_above(s, k, vc, qa) ==> #[trigger] s[j].entry_progress() > qa,
        first_not_above(s, k, vc, qa) < vc ==> s[first_not_above(s, k, vc, qa)].entry_progress() <= qa,
    decreases vc - k,
{
    if k < vc && s[k].entry_progress() > qa {
        lemma_first_not_above(s, k + 1, vc, qa);
    }
}

proof fn lemma_first_ascent<E: VecProgressEntry>(s: Seq<E>, k: int, end: int)
    requires
        0 <= k <= end <= s.len(),
    ensures
        first_ascent(s, k, end) < 0 ==> forall|j: int|
            k <= j && j + 1 < end ==> #[trigger] s[j].entry_progress() >= s[j + 1].entry_progress(),
        first_ascent(s, k, end) >= 0 ==> k <= first_ascent(s, k, end) && first_ascent(s, k, end) + 1 < end
            && s[first_ascent(s, k, end)].entry_progress() < s[first_ascent(s, k, end) + 1].entry_progress(),
    decreases end - k,
{
    if k + 1 < end && s[k].entry_progress() >= s[k + 1].entry_progress() {
        lemma_first_ascent(s, k + 1, end);
    }
}

proof fn lemma_first_above<E: VecProgressEntry>(s: Seq<E>, k: int, vc: int, qa: u64)
    requires
        0 <= k <= vc <= s.len(),
    ensures
        k <= first_above(s, k, vc, qa) <= vc,
        forall|j: int| k <= j < first_above(s, k, vc, qa) ==> #[trigger] s[j].entry_progress() <= qa,
        first_above(s, k, vc, qa) < vc ==> s[first_above(s, k, vc, qa)].entry_progress() > qa,
    decreases vc - k,
{
    if k < vc && s[k].entry_progress() <= qa {
        lemma_first_above(s, k + 1, vc, qa);
    }
}

/// Neighbours in descending order make a descending run.
proof fn lemma_descending_run<E: VecProgressEntry>(s: Seq<E>, i: int, j: int, end: int)
    requires
        0 <= i <= j < end <= s.len(),
        forall|k: int| 0 <= k && k + 1 < end ==> #[trigger] s[k].entry_progress() >= s[k + 1].entry_progress(),
    ensures
        s[i].entry_progress() >= s[j].entry_progress(),
    decreases j - i,
{
    if i < j {
        lemma_descending_run(s, i + 1, j, end);
        assert(s[i].entry_progress() >= s[i + 1].entry_progress());
    }
}

/// The check passes exactly when the voters above `qa` come first, in
/// descending order.
proof fn lemma_voter_order_check<E: VecProgressEntry>(s: Seq<E>, vc: int, qa: u64)
    requires
        0 <= vc <= s.len(),
    ensures
        (first_ascent(s, 0, first_not_above(s, 0, vc, qa)) < 0 && first_above(
            s,
            first_not_above(s, 0, vc, qa),
            vc,
            qa,
        ) == vc) <==> sorted_above(s, vc, qa),
{
    let ss = first_not_above(s, 0, vc, qa);
    lemma_first_not_above(s, 0, vc, qa);
    lemma_first_ascent(s, 0, ss);
    lemma_first_above(s, ss, vc, qa);
    let b = first_ascent(s, 0, ss);
    let m = first_above(s, ss, vc, qa);
    if b < 0 && m == vc {
        assert forall|i: int, j: int| 0 <= i < j < vc && #[trigger] s[j].entry_progress() > qa implies #[trigger] s[i].entry_progress()
            >= s[j].entry_progress() by {
            if j >= ss {
                assert(s[j].entry_progress() <= qa);
            }
            lemma_descending_run(s, i, j, ss);
        }
    }
    if sorted_above(s, vc, qa) {
        if b >= 0 {
            assert(s[b + 1].entry_progress() > qa);
            assert(s[b].entry_progress() >= s[b + 1].entry_progress());
        }
        if m < vc {
            if ss < m {
                assert(s[ss].entry_progress() >= s[m].entry_progress());
            }
        }
    }
}

/// The ID and progress of the entries from `lo` below `hi`.
fn pairs_between<E: VecProgressEntry>(v: &Vec<E>, lo: usize, hi: usize) -> (r: Vec<(E::Id, u64)>)
    requires
        lo <= hi <= v@.len(),
    ensures
        pairs_view(r@) == entry_pairs(v@.subrange(lo as int, hi as int)),
{
    let mut out: Vec<(E::Id, u64)> = Vec::new();
    let mut i: usize = lo;
    while i < hi
        invariant
            lo <= i <= hi <= v@.len(),
            pairs_view(out@) == entry_pairs(v@.subrange(lo as int, i as int)),
        decreases hi - i,
    {
        let ghost before = out@;
        let c = v[i].id().copy_id();
        out.push((c, *v[i].progress()));
        proof {
            assert(out@ == before.push((c, v@[i as int].entry_progress())));
            assert(pairs_view(out@) =~= pairs_view(before).push((c@, v@[i as int].entry_progress())));
        }
        i = i + 1;
        assert(pairs_view(out@) =~= entry_pairs(v@.subrange(lo as int, i as int)));
    }
    out
}

impl<Entry: VecProgressEntry, QS: QuorumSet<Id = Entry::Id>> VecProgress<Entry, QS> {
    /// Checks that the voters whose progress is above the quorum-accepted
    /// value form a descending prefix, and reports the first entry out of
    /// order together with the progress of every voter and learner.
    ///
    /// It passes exactly when that order holds, so on every tracker that
    /// [`VecProgress::wf`] holds of; the order can break only through
    /// [`VecProgress::iter_mut_without_reorder`].
    pub fn validate_voter_order(&self) -> (r: Result<(), VoterOrderError<Entry::Id>>)
        requires
            self.voter_count_spec() <= self.entries_spec().len(),
        ensures
            ({
                let s = self.entries_spec();
                let vc = self.voter_count_spec() as int;
                let qa = self.quorum_accepted_spec();
                let ss = first_not_above(s, 0, vc, qa);
                let b = first_ascent(s, 0, ss);
                let m = first_above(s, ss, vc, qa);
                match r {
                    Ok(()) => b < 0 && m == vc,
                    Err(VoterOrderError::NotDescending {
                        quorum_accepted,
                        previous_entry,
                        out_of_order_entry,
                        voter_progress,
                        learner_progress,
                    }) => {
                        &&& b >= 0
                        &&& quorum_accepted == qa
                        &&& entry_at_view(previous_entry) == entry_at(s, b)
                        &&& entry_at_view(out_of_order_entry) == entry_at(s, b + 1)
                        &&& pairs_view(voter_progress@) == entry_pairs(s.take(vc))
                        &&& pairs_view(learner_progress@) == entry_pairs(s.skip(vc))
                    },
                    Err(VoterOrderError::AfterUnsortedSuffix {
                        quorum_accepted,
                        out_of_order_entry,
                        voter_progress,
                        learner_progress,
                    }) => {
                        &&& b < 0
                        &&& m < vc
                        &&& quorum_accepted == qa
                        &&& entry_at_view(out_of_order_entry) == entry_at(s, m)
                        &&& pairs_view(voter_progress@) == entry_pairs(s.take(vc))
                        &&& pairs_view(learner_progress@) == entry_pairs(s.skip(vc))
                    },
                }
            }),
            r is Ok <==> sorted_above(self.entries_spec(), self.voter_count_spec() as int, self.quorum_accepted_spec()),
    {
        let ghost s = self.entries@;
        let vc = self.voter_count;
        let qa = self.quorum_accepted;
        proof {
            lemma_voter_order_check(s, vc as int, qa);
            lemma_first_not_above(s, 0, vc as int, qa);
        }
        let mut ss: usize = 0;
        while ss < vc && *self.entries[ss].progress() > qa
            invariant
                0 <= ss <= vc <= s.len(),
                s == self.entries@,
                vc == self.voter_count,
                qa == self.quorum_accepted,
                first_not_above(s, 0, vc as int, qa) == first_not_above(s, ss as int, vc as int, qa),
            decreases vc - ss,
        {
            ss = ss + 1;
        }
        proof {
            assert(first_not_above(s, ss as int, vc as int, qa) == ss);
        }
        let mut k: usize = 0;
        while k < ss && ss - k > 1
            invariant
                0 <= k <= ss <= vc <= s.len(),
                s == self.entries@,
                vc == self.voter_count,
                qa == self.quorum_accepted,
                ss == first_not_above(s, 0, vc as int, qa),
                first_ascent(s, 0, ss as int) == first_ascent(s, k as int, ss as int),
            decreases ss - k,
        {
            if *self.entries[k].progress() < *self.entries[k + 1].progress() {
                let voter_progress = pairs_between(&self.entries, 0, vc);
                let learner_progress = pairs_between(&self.entries, vc, self.entries.len());
                proof {
                    assert(s.subrange(0, vc as int) =~= s.take(vc as int));
                    assert(s.subrange(vc as int, s.len() as int) =~= s.skip(vc as int));
                    assert(first_ascent(s, k as int, ss as int) == k);
                    lemma_voter_order_check(s, vc as int, qa);
                }
                return Err(VoterOrderError::NotDescending {
                    quorum_accepted: qa,
                    previous_entry: (k, self.entries[k].id().copy_id(), *self.entries[k].progress()),
                    out_of_order_entry: (k + 1, self.entries[k + 1].id().copy_id(), *self.entries[k + 1].progress()),
                    voter_progress,
                    learner_progress,
                });
            }
            k = k + 1;
        }
        proof {
            assert(first_ascent(s, k as int, ss as int) == -1);
        }
        let mut m: usize = ss;
        while m < vc
            invariant
                ss <= m <= vc <= s.len(),
                s == self.entries@,
                vc == self.voter_count,
                qa == self.quorum_accepted,
                ss == first_not_above(s, 0, vc as int, qa),
                first_ascent(s, 0, ss as int) < 0,
                first_above(s, ss as int, vc as int, qa) == first_above(s, m as int, vc as int, qa),
            decreases vc - m,
        {
            if *self.entries[m].progress() > qa {
                let voter_progress = pairs_between(&self.entries, 0, vc);
                let learner_progress = pairs_between(&self.entries, vc, self.entries.len());
                proof {
                    assert(s.subrange(0, vc as int) =~= s.take(vc as int));
                    assert(s.subrange(vc as int, s.len() as int) =~= s.skip(vc as int));
                    assert(first_above(s, m as int, vc as int, qa) == m);
                    lemma_voter_order_check(s, vc as int, qa);
                }
                return Err(VoterOrderError::AfterUnsortedSuffix {
                    quorum_accepted: qa,
                    out_of_order_entry: (m, self.entries[m].id().copy_id(), *self.entries[m].progress()),
                    voter_progress,
                    learner_progress,
                });
            }
            m = m + 1;
        }
        proof {
            lemma_voter_order_check(s, vc as int, qa);
        }
        Ok(())
    }
}

} // verus!
