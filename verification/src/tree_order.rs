//! Equality and ordering of quorum trees: both are decided by the canonical
//! ID alone.

use std::cmp::Ordering;
use vstd::prelude::*;
use crate::node_id::NodeId;
use crate::canonical_id::sha256_hex_collision;
use crate::canonical_id::lemma_tree_canonical_unambiguous;
use crate::order::{lemma_lex_trichotomy, lex_compare, lex_lt};
use crate::tree::node_same;
use vstd::std_specs::cmp::{PartialEqSpec, PartialOrdSpec};
use crate::tree::QuorumTree;

verus! {

/// Two trees are equal when their canonical IDs are.
impl<ID: NodeId> PartialEq for QuorumTree<ID> {
    fn eq(&self, other: &Self) -> (r: bool) {
        lex_compare(self.canonical_bytes(), other.canonical_bytes()) == 0
    }
}

impl<ID: NodeId> vstd::std_specs::cmp::PartialEqSpecImpl for QuorumTree<ID> {
    open spec fn obeys_eq_spec() -> bool {
        true
    }

    open spec fn eq_spec(&self, other: &Self) -> bool {
        self.canonical_spec() == other.canonical_spec()
    }
}

impl<ID: NodeId> Eq for QuorumTree<ID> {
}

/// The order of canonical IDs, byte by byte.
pub open spec fn canonical_order(a: Seq<u8>, b: Seq<u8>) -> Ordering {
    if lex_lt(a, b) {
        Ordering::Less
    } else if a == b {
        Ordering::Equal
    } else {
        Ordering::Greater
    }
}

/// Trees are ordered by their canonical IDs.
impl<ID: NodeId> PartialOrd for QuorumTree<ID> {
    fn partial_cmp(&self, other: &Self) -> (r: Option<Ordering>) {
        let c = lex_compare(self.canonical_bytes(), other.canonical_bytes());
        if c < 0 {
            Some(Ordering::Less)
        } else if c == 0 {
            Some(Ordering::Equal)
        } else {
            Some(Ordering::Greater)
        }
    }
}

impl<ID: NodeId> vstd::std_specs::cmp::PartialOrdSpecImpl for QuorumTree<ID> {
    open spec fn obeys_partial_cmp_spec() -> bool {
        true
    }

    open spec fn partial_cmp_spec(&self, other: &Self) -> Option<Ordering> {
        Some(canonical_order(self.canonical_spec(), other.canonical_spec()))
    }
}

/// Two trees are equal exactly when their canonical IDs are; so equal trees
/// built by [`QuorumTree::new`] have the same quorum size and the same
/// children, unless SHA-256 maps two different byte strings to one digest.
pub proof fn lemma_eq_by_canonical_id<ID: NodeId>(a: QuorumTree<ID>, b: QuorumTree<ID>)
    ensures
        a.eq_spec(&b) <==> a.canonical_spec() == b.canonical_spec(),
        a.canonical_wf() && b.canonical_wf() && a.eq_spec(&b) ==> a.quorum_size_spec() == b.quorum_size_spec() && (
        sha256_hex_collision() || (a.children_spec().len() == b.children_spec().len() && forall|i: int|
            0 <= i < a.children_spec().len() ==> node_same(#[trigger] a.children_spec()[i], b.children_spec()[i]))),
{
    if a.canonical_wf() && b.canonical_wf() && a.canonical_spec() == b.canonical_spec() {
        lemma_tree_canonical_unambiguous(a, b);
    }
}

/// Trees are ordered as their canonical IDs are, byte by byte: `Less`,
/// `Equal` or `Greater` exactly when the first ID comes before, is, or comes
/// after the second; `Equal` exactly when the trees are equal.
pub proof fn lemma_order_by_canonical_id<ID: NodeId>(a: QuorumTree<ID>, b: QuorumTree<ID>)
    ensures
        a.partial_cmp_spec(&b) == Some(Ordering::Less) <==> lex_lt(a.canonical_spec(), b.canonical_spec()),
        a.partial_cmp_spec(&b) == Some(Ordering::Equal) <==> a.canonical_spec() == b.canonical_spec(),
        a.partial_cmp_spec(&b) == Some(Ordering::Greater) <==> lex_lt(b.canonical_spec(), a.canonical_spec()),
        a.partial_cmp_spec(&b) == Some(Ordering::Equal) <==> a.eq_spec(&b),
{
    lemma_lex_trichotomy(a.canonical_spec(), b.canonical_spec());
}

} // verus!
