//! The common interface of every quorum rule.

use std::sync::Arc;
use vstd::prelude::*;
use crate::node_id::{view_set, views};

verus! {

/// Common interface for every quorum rule of this library.
///
/// Every implementation follows three rules, stated as the proof functions
/// of this trait:
///
/// - Upward-closed: adding IDs to an accepted set keeps it accepted.
/// - Closed over [`ids()`](Self::ids): IDs outside the voter set never change
///   the result.
/// - Duplicate-safe: `is_quorum` depends on the set of candidate IDs only, so
///   a repeated ID counts once.
pub trait QuorumSet {
    /// The node ID type; IDs are told apart by their views.
    type Id: View;

    /// Every voter ID tracked by this quorum set.
    spec fn voters(&self) -> Set<<Self::Id as View>::V>;

    /// Whether the candidate IDs in `ids` satisfy this quorum rule.
    spec fn accepts(&self, ids: Set<<Self::Id as View>::V>) -> bool;

    /// Returns whether the candidate IDs satisfy this quorum rule; repeated IDs
    /// count once.
    fn is_quorum(&self, ids: &[Self::Id]) -> (r: bool)
        ensures
            r == self.accepts(view_set(ids@)),
    ;

    /// Returns every voter ID once.
    fn ids(&self) -> (r: Vec<Self::Id>)
        ensures
            view_set(r@) == self.voters(),
            views(r@).no_duplicates(),
    ;

    /// Adding IDs to an accepted set keeps it accepted.
    proof fn lemma_upward_closed(&self, a: Set<<Self::Id as View>::V>, b: Set<<Self::Id as View>::V>)
        requires
            a.subset_of(b),
            self.accepts(a),
        ensures
            self.accepts(b),
    ;

    /// IDs that are not voters never change the result.
    proof fn lemma_closed_over_voters(&self, s: Set<<Self::Id as View>::V>)
        ensures
            self.accepts(s) == self.accepts(s.intersect(self.voters())),
    ;

    /// There are finitely many voters.
    proof fn lemma_voters_finite(&self)
        ensures
            self.voters().finite(),
    ;
}

/// A shared quorum set follows the rule it points to.
impl<T: QuorumSet> QuorumSet for Arc<T> {
    type Id = T::Id;

    open spec fn voters(&self) -> Set<<T::Id as View>::V> {
        (**self).voters()
    }

    open spec fn accepts(&self, ids: Set<<T::Id as View>::V>) -> bool {
        (**self).accepts(ids)
    }

    fn is_quorum(&self, ids: &[T::Id]) -> (r: bool) {
        (**self).is_quorum(ids)
    }

    fn ids(&self) -> (r: Vec<T::Id>) {
        (**self).ids()
    }

    proof fn lemma_upward_closed(&self, a: Set<<T::Id as View>::V>, b: Set<<T::Id as View>::V>) {
        (**self).lemma_upward_closed(a, b);
    }

    proof fn lemma_closed_over_voters(&self, s: Set<<T::Id as View>::V>) {
        (**self).lemma_closed_over_voters(s);
    }

    proof fn lemma_voters_finite(&self) {
        (**self).lemma_voters_finite();
    }
}

} // verus!
