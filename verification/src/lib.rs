//! Hierarchical quorum rules with deterministic canonical IDs, quorum-set
//! evaluation, quorum intersection checks and quorum-based progress tracking.
//!
//! Node IDs are any type with canonical bytes and a total order
//! ([`node_id::NodeId`]): every integer type, text (`String`) and byte strings
//! (`Vec<u8>`) are provided.

pub mod encoding;
pub mod digest;
pub mod order;
pub mod node_id;
pub mod int_ids;
pub mod display_id;
pub mod tree_error;
pub mod quorum_set;
pub mod quorum_impls;
pub mod intersection;
pub mod joint;
pub mod tree;
pub mod tree_order;
pub mod id_syntax;
pub mod canonical_id;
pub mod entry;
pub mod progress;
pub mod voter_order;

pub use canonical_id::CanonicalId;
pub use entry::{IdVal, VecProgressEntry, VecProgressEntryData};
pub use intersection::verify_intersection;
pub use joint::{Coherent, FindCoherent, QuorumBridge, QuorumIntersection};
pub use progress::VecProgress;
pub use quorum_set::QuorumSet;
pub use tree::{Node, QuorumTree};
pub use tree_error::QuorumTreeError;
pub use voter_order::VoterOrderError;
