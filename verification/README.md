# quorum_set

Hierarchical quorum rules with deterministic canonical IDs, a common
quorum-set interface, quorum intersection checks and a progress tracker for
consensus systems, written in Verus. The executable functions of `src/` are
verified against their contracts, with two exceptions: the trusted wrappers
`sha256_digest` (`src/digest.rs`, which calls the `sha2` crate) and
`ascii_to_string` (`src/encoding.rs`, which calls `String::from_utf8`), whose
contracts Verus takes on trust.

Node IDs are generic: any type with canonical bytes and a total order (the
`NodeId` trait) can be a leaf of a `QuorumTree` or the ID of a `VecProgress`
entry. Every integer type, text (`String`) and byte strings (`Vec<u8>`)
are provided.

## Layout

- `src/node_id.rs`, `src/int_ids.rs`, `src/display_id.rs`: the `NodeId`
  trait, its impls for integers, `String` and `Vec<u8>`, sorted ID vectors,
  integer keys for `BTreeSet`, and the text form of IDs in displays.
- `src/quorum_set.rs`: the `QuorumSet` trait. Its proof functions state the
  rules every implementation keeps: accepted sets stay accepted when IDs are
  added, and IDs outside the voters never matter.
- `src/quorum_impls.rs`: a `BTreeSet` of integer IDs is a flat majority
  rule, a `Vec` of them a joint rule that needs a majority of every member.
- `src/tree.rs`, `src/tree_error.rs`, `src/canonical_id.rs`,
  `src/tree_order.rs`: `QuorumTree`, a rule built from `Node`s (IDs or
  nested trees), with construction errors, canonical IDs (at most 111
  bytes) that also decide equality and order, and display forms.
- `src/intersection.rs`, `src/joint.rs`: the exact `verify_intersection`
  check and the cheaper joint-config relations (`QuorumIntersection`,
  `QuorumBridge`, `Coherent`, `FindCoherent`).
- `src/entry.rs`, `src/progress.rs`, `src/voter_order.rs`: `VecProgress`,
  which tracks per-node progress and the greatest value accepted by a quorum,
  and the report of a broken voter order.
- `src/encoding.rs`, `src/order.rs`, `src/digest.rs`: byte encodings,
  lexicographic order and the SHA-256 digest that long canonical IDs use.
- `app/`: `Display`, `Error` and `validit::Validate` adapters.
- `tests/`: scenarios run against the compiled library.
