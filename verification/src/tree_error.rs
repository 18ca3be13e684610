//! Errors of quorum tree construction.

use vstd::prelude::*;
use crate::encoding::{append_decimal, dec_text};

verus! {

/// An error returned when building an invalid [`QuorumTree`](crate::QuorumTree).
///
/// Both cases are caller bugs: a correct quorum rule never contains the same
/// child twice and never requires more children than it has. Construction
/// reports them instead of repairing the input.
#[derive(Debug, Clone, PartialEq, Eq)]
pub enum QuorumTreeError {
    /// The same child node was given more than once.
    DuplicateChild {
        /// Canonical ID of the duplicated child node.
        canonical_id: String,
    },
    /// `quorum_size` exceeds the number of child nodes, so no input could
    /// satisfy the tree.
    UnsatisfiableQuorum {
        /// The required number of selected children.
        quorum_size: u64,
        /// The number of child nodes.
        num_children: usize,
    },
}

/// The human-readable message of an error.
pub open spec fn error_message(e: QuorumTreeError) -> Seq<char> {
    match e {
        QuorumTreeError::DuplicateChild { canonical_id } => "duplicate child node: "@ + canonical_id@,
        QuorumTreeError::UnsatisfiableQuorum { quorum_size, num_children } => "quorum size "@ + dec_text(
            quorum_size as nat,
        ) + " exceeds the number of child nodes "@ + dec_text(num_children as nat),
    }
}

impl QuorumTreeError {
    /// The human-readable message, e.g. `duplicate child node: Id=1`.
    pub fn message(&self) -> (r: String)
        ensures
            r@ == error_message(*self),
    {
        let mut out = String::new();
        match self {
            QuorumTreeError::DuplicateChild { canonical_id } => {
                out.append("duplicate child node: ");
                out.append(canonical_id.as_str());
            },
            QuorumTreeError::UnsatisfiableQuorum { quorum_size, num_children } => {
                out.append("quorum size ");
                append_decimal(&mut out, *quorum_size);
                out.append(" exceeds the number of child nodes ");
                append_decimal(&mut out, *num_children as u64);
            },
        }
        assert(out@ =~= error_message(*self));
        out
    }
}

} // verus!
