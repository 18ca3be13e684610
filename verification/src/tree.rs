//! Quorum trees: hierarchical quorum rules with deterministic canonical IDs.

use std::collections::BTreeSet;
use vstd::prelude::*;
use crate::digest::{sha256, sha256_digest};
use crate::encoding::{
    append_decimal, ascii_chars, ascii_to_string, dec_text, decimal, escape, hex_lower, is_ascii_bytes, lemma_decimal_ascii,
    lemma_escape_ascii, lemma_hex_lower_ascii, lemma_u64_decimal_len, push_all, push_decimal, push_escaped, push_hex_lower,
};
use crate::order::{lemma_lex_transitive, lemma_lex_trichotomy, lex_compare, lex_lt};
use crate::tree_error::QuorumTreeError;
use crate::quorum_impls::majority_accepts;
use crate::quorum_set::QuorumSet;
use crate::display_id::DisplayId;
use crate::id_syntax::{item_atom, items_atoms, lemma_id_node_atom, lemma_tree_node_atom};
use crate::node_id::{NodeId, contains_id, ids_sorted, insert_id_sorted, lemma_ids_sorted_no_duplicates, view_set};

verus! {

broadcast use vstd::seq_lib::group_to_multiset_ensures;

/// Canonical strings longer than this many bytes are replaced by a hash.
pub const MAX_CANONICAL_ID_LEN: usize = 64;

/// The longest canonical ID of a tree: a 20-digit quorum size, `/`,
/// `Hash#`, a 20-digit child count, `:` and 64 hex digits.
pub const MAX_TREE_ID_LEN: usize = 111;

/// A child of a [`QuorumTree`]: a leaf node ID or a nested quorum tree.
///
/// Nested trees allow hierarchical rules such as "two data centers, each
/// selected by a local majority".
#[derive(Debug, PartialEq, Eq, PartialOrd, Ord, Hash)]
pub enum Node<ID: NodeId> {
    /// A leaf node ID.
    Id(ID),
    /// A nested quorum tree.
    Subtree(QuorumTree<ID>),
}

/// A single quorum rule represented as a tree.
///
/// A tree is selected when at least `quorum_size` of its children are
/// selected; a child is selected when it is an included node ID or a nested
/// tree whose own rule is satisfied.
///
/// Children are unique and kept in canonical order, `quorum_size` never
/// exceeds the number of children, and equality and ordering follow the
/// canonical ID, which is the first field.
#[derive(Debug, Ord, Hash)]
pub struct QuorumTree<ID: NodeId> {
    canonical_id: String,
    canonical: Vec<u8>,
    quorum_size: u64,
    nodes: Vec<Node<ID>>,
}

// ---------------------------------------------------------------------------
// Tokens of the canonical encoding.

/// `Id=`
pub open spec fn tag_id() -> Seq<u8> {
    seq![73u8, 100, 61]
}

/// `Subtree=`
pub open spec fn tag_subtree() -> Seq<u8> {
    seq![83u8, 117, 98, 116, 114, 101, 101, 61]
}

/// `Hash#`
pub open spec fn tag_hash() -> Seq<u8> {
    seq![72u8, 97, 115, 104, 35]
}

/// The embedding of a user ID's canonical bytes in a tree ID: escaped when it
/// has at most [`MAX_CANONICAL_ID_LEN`] bytes, else `Hash#1:` and the
/// lower-case hex SHA-256 of the bytes.
pub open spec fn embed_id(raw: Seq<u8>) -> Seq<u8> {
    if raw.len() > 64 {
        tag_hash() + decimal(1) + seq![58u8] + hex_lower(sha256(raw))
    } else {
        escape(raw)
    }
}

/// Canonical ID of a child node.
pub open spec fn node_canonical<ID: NodeId>(n: Node<ID>) -> Seq<u8> {
    match n {
        Node::Id(i) => tag_id() + embed_id(ID::canonical_of(i@)),
        Node::Subtree(t) => tag_subtree() + t.canonical_spec(),
    }
}

/// The canonical IDs of `nodes`, separated by `,`.
pub open spec fn join_canonical<ID: NodeId>(nodes: Seq<Node<ID>>) -> Seq<u8>
    decreases nodes.len(),
{
    if nodes.len() == 0 {
        seq![]
    } else if nodes.len() == 1 {
        node_canonical(nodes[0])
    } else {
        join_canonical(nodes.drop_last()) + seq![44u8] + node_canonical(nodes.last())
    }
}

/// `(` joined child IDs `)`.
pub open spec fn tree_body<ID: NodeId>(nodes: Seq<Node<ID>>) -> Seq<u8> {
    seq![40u8] + join_canonical(nodes) + seq![41u8]
}

/// Canonical ID of a tree: `quorum_size/` then the body, or, when the body is
/// longer than [`MAX_CANONICAL_ID_LEN`], `Hash#<children>:` and the
/// lower-case hex SHA-256 of the body.
pub open spec fn tree_canonical<ID: NodeId>(quorum_size: u64, nodes: Seq<Node<ID>>) -> Seq<u8> {
    let body = tree_body(nodes);
    decimal(quorum_size as nat) + seq![47u8] + (if body.len() > 64 {
        tag_hash() + decimal(nodes.len()) + seq![58u8] + hex_lower(sha256(body))
    } else {
        body
    })
}

// ---------------------------------------------------------------------------
// Order of children.

/// The order of children: IDs before subtrees, IDs by value, subtrees by
/// canonical ID.
pub open spec fn node_lt<ID: NodeId>(a: Node<ID>, b: Node<ID>) -> bool {
    match (a, b) {
        (Node::Id(x), Node::Id(y)) => ID::id_lt(x@, y@),
        (Node::Id(_), Node::Subtree(_)) => true,
        (Node::Subtree(_), Node::Id(_)) => false,
        (Node::Subtree(s), Node::Subtree(t)) => lex_lt(s.canonical_spec(), t.canonical_spec()),
    }
}

/// Two children are the same child: the same ID, or subtrees with the same
/// canonical ID.
pub open spec fn node_same<ID: NodeId>(a: Node<ID>, b: Node<ID>) -> bool {
    match (a, b) {
        (Node::Id(x), Node::Id(y)) => x@ == y@,
        (Node::Subtree(s), Node::Subtree(t)) => s.canonical_spec() == t.canonical_spec(),
        _ => false,
    }
}

/// Children in strictly increasing order; hence no child occurs twice.
pub open spec fn nodes_sorted<ID: NodeId>(s: Seq<Node<ID>>) -> bool {
    forall|i: int, j: int| 0 <= i < j < s.len() ==> node_lt(#[trigger] s[i], #[trigger] s[j])
}

/// Of two children, exactly one comes first or they are the same child.
pub proof fn lemma_node_trichotomy<ID: NodeId>(a: Node<ID>, b: Node<ID>)
    ensures
        node_lt(a, b) || node_same(a, b) || node_lt(b, a),
        !(node_lt(a, b) && node_lt(b, a)),
        !(node_lt(a, b) && node_same(a, b)),
        !(node_lt(b, a) && node_same(a, b)),
        node_same(a, b) == node_same(b, a),
{
    match (a, b) {
        (Node::Id(x), Node::Id(y)) => ID::lemma_id_order(x@, y@),
        (Node::Subtree(s), Node::Subtree(t)) => lemma_lex_trichotomy(s.canonical_spec(), t.canonical_spec()),
        _ => {},
    }
}

/// The order of children is transitive.
pub proof fn lemma_node_transitive<ID: NodeId>(a: Node<ID>, b: Node<ID>, c: Node<ID>)
    requires
        node_lt(a, b),
        node_lt(b, c),
    ensures
        node_lt(a, c),
{
    match (a, b, c) {
        (Node::Id(x), Node::Id(y), Node::Id(z)) => ID::lemma_id_transitive(x@, y@, z@),
        (Node::Subtree(s), Node::Subtree(t), Node::Subtree(u)) => lemma_lex_transitive(
            s.canonical_spec(),
            t.canonical_spec(),
            u.canonical_spec(),
        ),
        _ => {},
    }
}

// ---------------------------------------------------------------------------
// Duplicate children in construction input.

/// `s[j]` repeats a child that occurs before it.
pub open spec fn repeats_earlier<ID: NodeId>(s: Seq<Node<ID>>, j: int) -> bool {
    exists|i: int| 0 <= i < j && node_same(s[i], s[j])
}

/// Some child occurs more than once.
pub open spec fn has_duplicates<ID: NodeId>(s: Seq<Node<ID>>) -> bool {
    exists|j: int| 0 <= j < s.len() && #[trigger] repeats_earlier(s, j)
}

/// `s[j]` is the first child that repeats an earlier one.
pub open spec fn is_first_duplicate<ID: NodeId>(s: Seq<Node<ID>>, j: int) -> bool {
    &&& 0 <= j < s.len()
    &&& repeats_earlier(s, j)
    &&& forall|k: int| 0 <= k < j ==> !#[trigger] repeats_earlier(s, k)
}

/// `canonical_id` is the canonical ID of the first child that repeats an
/// earlier one.
pub open spec fn names_first_duplicate<ID: NodeId>(s: Seq<Node<ID>>, canonical_id: Seq<char>) -> bool {
    exists|j: int| #[trigger] is_first_duplicate(s, j) && canonical_id == ascii_chars(node_canonical(s[j]))
}

impl<ID: NodeId> QuorumTree<ID> {
    /// The canonical ID bytes.
    pub closed spec fn canonical_spec(&self) -> Seq<u8> {
        self.canonical@
    }

    /// The required number of selected children.
    pub closed spec fn quorum_size_spec(&self) -> u64 {
        self.quorum_size
    }

    /// The children, in canonical order.
    pub closed spec fn children_spec(&self) -> Seq<Node<ID>> {
        self.nodes@
    }

    #[verifier::type_invariant]
    closed spec fn inv(self) -> bool {
        &&& nodes_sorted(self.nodes@)
        &&& self.quorum_size <= self.nodes@.len()
        &&& self.canonical@ == tree_canonical(self.quorum_size, self.nodes@)
        &&& items_atoms(self.nodes@)
        &&& is_ascii_bytes(self.canonical@)
        &&& self.canonical@.len() <= MAX_TREE_ID_LEN
        &&& self.canonical_id@ == ascii_chars(self.canonical@)
    }

    /// `self` is the tree that [`QuorumTree::new`] builds from `quorum_size`
    /// and `input`: the same quorum size, the input children in canonical
    /// order, and the canonical ID of that arrangement.
    pub open spec fn built_from(&self, quorum_size: u64, input: Seq<Node<ID>>) -> bool {
        &&& self.quorum_size_spec() == quorum_size
        &&& nodes_sorted(self.children_spec())
        &&& self.children_spec().to_multiset() == input.to_multiset()
        &&& self.canonical_spec() == tree_canonical(quorum_size, self.children_spec())
    }

    /// The canonical ID is the canonical form of the quorum size and the
    /// children, and each child's canonical ID is a single list item.
    pub open spec fn canonical_wf(&self) -> bool {
        &&& self.canonical_spec() == tree_canonical(self.quorum_size_spec(), self.children_spec())
        &&& items_atoms(self.children_spec())
    }
}

// ---------------------------------------------------------------------------
// Executable helpers.

fn push_tag_id(out: &mut Vec<u8>)
    ensures
        final(out)@ == old(out)@ + tag_id(),
{
    out.push(73);
    out.push(100);
    out.push(61);
    assert(final(out)@ =~= old(out)@ + tag_id());
}

fn push_tag_subtree(out: &mut Vec<u8>)
    ensures
        final(out)@ == old(out)@ + tag_subtree(),
{
    out.push(83);
    out.push(117);
    out.push(98);
    out.push(116);
    out.push(114);
    out.push(101);
    out.push(101);
    out.push(61);
    assert(final(out)@ =~= old(out)@ + tag_subtree());
}

fn push_tag_hash(out: &mut Vec<u8>)
    ensures
        final(out)@ == old(out)@ + tag_hash(),
{
    out.push(72);
    out.push(97);
    out.push(115);
    out.push(104);
    out.push(35);
    assert(final(out)@ =~= old(out)@ + tag_hash());
}

/// Appends the embedding of a user ID's canonical bytes: escaped when short,
/// hashed when longer than [`MAX_CANONICAL_ID_LEN`].
pub fn push_embedded_id(out: &mut Vec<u8>, raw: &[u8])
    ensures
        final(out)@ == old(out)@ + embed_id(raw@),
{
    if raw.len() > MAX_CANONICAL_ID_LEN {
        push_tag_hash(out);
        push_decimal(out, 1);
        out.push(58);
        let digest = sha256_digest(raw);
        push_hex_lower(out, digest.as_slice());
        assert(final(out)@ =~= old(out)@ + embed_id(raw@));
    } else {
        push_escaped(out, raw);
    }
}

proof fn lemma_embed_id_ascii(raw: Seq<u8>)
    ensures
        is_ascii_bytes(embed_id(raw)),
{
    lemma_escape_ascii(raw);
    lemma_hex_lower_ascii(sha256(raw));
    lemma_decimal_ascii(1);
}

/// Appends the canonical ID of a child node.
pub(crate) fn push_node_canonical<ID: NodeId>(out: &mut Vec<u8>, node: &Node<ID>)
    requires
        is_ascii_bytes(old(out)@),
    ensures
        final(out)@ == old(out)@ + node_canonical(*node),
        is_ascii_bytes(final(out)@),
        item_atom(node_canonical(*node)),
{
    match node {
        Node::Id(i) => {
            proof {
                lemma_id_node_atom(*node);
            }
            push_tag_id(out);
            let raw = i.canonical_bytes();
            push_embedded_id(out, raw.as_slice());
            proof {
                lemma_embed_id_ascii(ID::canonical_of(i@));
                assert(final(out)@ =~= old(out)@ + node_canonical(*node));
            }
        },
        Node::Subtree(t) => {
            proof {
                use_type_invariant(t);
                lemma_tree_node_atom(*t);
            }
            push_tag_subtree(out);
            push_all(out, t.canonical.as_slice());
            assert(final(out)@ =~= old(out)@ + node_canonical(*node));
        },
    }
}

/// Compares two children: negative, zero or positive as `a` comes before, is
/// the same child as, or comes after `b`.
pub fn node_compare<ID: NodeId>(a: &Node<ID>, b: &Node<ID>) -> (r: i8)
    ensures
        r < 0 <==> node_lt(*a, *b),
        r == 0 <==> node_same(*a, *b),
        r > 0 <==> node_lt(*b, *a),
{
    proof {
        lemma_node_trichotomy(*a, *b);
    }
    match (a, b) {
        (Node::Id(x), Node::Id(y)) => x.compare_id(y),
        (Node::Id(_), Node::Subtree(_)) => -1,
        (Node::Subtree(_), Node::Id(_)) => 1,
        (Node::Subtree(s), Node::Subtree(t)) => lex_compare(s.canonical.as_slice(), t.canonical.as_slice()),
    }
}

proof fn lemma_join_step<ID: NodeId>(nodes: Seq<Node<ID>>, i: int)
    requires
        0 <= i < nodes.len(),
    ensures
        join_canonical(nodes.take(i + 1)) == join_canonical(nodes.take(i)) + (if i > 0 {
            seq![44u8]
        } else {
            seq![]
        }) + node_canonical(nodes[i]),
{
    let p = nodes.take(i + 1);
    assert(p.drop_last() =~= nodes.take(i));
    assert(p.last() == nodes[i]);
    if i == 0 {
        assert(join_canonical(nodes.take(0)) =~= seq![]);
        assert(p.len() == 1);
        assert(p[0] == nodes[0]);
        assert(join_canonical(p) =~= seq![] + seq![] + node_canonical(nodes[0]));
    }
}

/// Builds the canonical ID bytes of a tree with the given quorum size and
/// sorted children.
fn build_canonical<ID: NodeId>(quorum_size: u64, nodes: &Vec<Node<ID>>) -> (r: Vec<u8>)
    ensures
        r@ == tree_canonical(quorum_size, nodes@),
        is_ascii_bytes(r@),
        r@.len() <= MAX_TREE_ID_LEN,
        items_atoms(nodes@),
{
    let mut body: Vec<u8> = Vec::new();
    body.push(40);
    let mut i: usize = 0;
    while i < nodes.len()
        invariant
            0 <= i <= nodes.len(),
            body@ == seq![40u8] + join_canonical(nodes@.take(i as int)),
            is_ascii_bytes(body@),
            forall|m: int| 0 <= m < i ==> item_atom(node_canonical(#[trigger] nodes@[m])),
        decreases nodes.len() - i,
    {
        if i > 0 {
            body.push(44);
        }
        push_node_canonical(&mut body, &nodes[i]);
        proof {
            lemma_join_step(nodes@, i as int);
        }
        i = i + 1;
        assert(body@ =~= seq![40u8] + join_canonical(nodes@.take(i as int)));
    }
    body.push(41);
    assert(nodes@.take(nodes.len() as int) =~= nodes@);
    assert(body@ =~= tree_body(nodes@));
    let mut out: Vec<u8> = Vec::new();
    push_decimal(&mut out, quorum_size);
    out.push(47);
    proof {
        lemma_decimal_ascii(quorum_size as nat);
    }
    if body.len() > MAX_CANONICAL_ID_LEN {
        push_tag_hash(&mut out);
        push_decimal(&mut out, nodes.len() as u64);
        out.push(58);
        let digest = sha256_digest(body.as_slice());
        push_hex_lower(&mut out, digest.as_slice());
        proof {
            lemma_decimal_ascii(nodes.len() as nat);
            lemma_hex_lower_ascii(sha256(body@));
            lemma_u64_decimal_len(quorum_size);
            lemma_u64_decimal_len(nodes.len() as u64);
            assert(out@ =~= tree_canonical(quorum_size, nodes@));
        }
    } else {
        push_all(&mut out, body.as_slice());
        proof {
            lemma_u64_decimal_len(quorum_size);
        }
        assert(out@ =~= tree_canonical(quorum_size, nodes@));
    }
    out
}

/// Two children that are the same child compare alike with every other one.
pub proof fn lemma_node_same_order<ID: NodeId>(a: Node<ID>, a2: Node<ID>, b: Node<ID>, b2: Node<ID>)
    requires
        node_same(a, a2),
        node_same(b, b2),
    ensures
        node_lt(a, b) == node_lt(a2, b2),
{
}

/// Children with pointwise equal canonical IDs join to the same bytes.
proof fn lemma_join_pointwise<ID: NodeId>(s: Seq<Node<ID>>, t: Seq<Node<ID>>)
    requires
        s.len() == t.len(),
        forall|i: int| 0 <= i < s.len() ==> node_canonical(#[trigger] s[i]) == node_canonical(t[i]),
    ensures
        join_canonical(s) == join_canonical(t),
    decreases s.len(),
{
    if s.len() > 1 {
        lemma_join_pointwise(s.drop_last(), t.drop_last());
    }
}

fn clone_node<ID: NodeId>(n: &Node<ID>) -> (r: Node<ID>)
    ensures
        node_same(r, *n),
        node_canonical(r) == node_canonical(*n),
    decreases n,
{
    match n {
        Node::Id(i) => Node::Id(i.copy_id()),
        Node::Subtree(t) => Node::Subtree(clone_tree(t)),
    }
}

fn clone_tree<ID: NodeId>(t: &QuorumTree<ID>) -> (r: QuorumTree<ID>)
    ensures
        r.canonical_spec() == t.canonical_spec(),
        r.quorum_size_spec() == t.quorum_size_spec(),
        r.children_spec().len() == t.children_spec().len(),
        forall|i: int| 0 <= i < t.children_spec().len() ==> node_same(
            #[trigger] r.children_spec()[i],
            t.children_spec()[i],
        ),
    decreases t,
{
    proof {
        use_type_invariant(t);
    }
    let mut nodes: Vec<Node<ID>> = Vec::new();
    let mut i: usize = 0;
    while i < t.nodes.len()
        invariant
            0 <= i <= t.nodes@.len(),
            nodes@.len() == i,
            forall|m: int| 0 <= m < i ==> node_same(#[trigger] nodes@[m], t.nodes@[m]),
            forall|m: int| 0 <= m < i ==> node_canonical(#[trigger] nodes@[m]) == node_canonical(t.nodes@[m]),
        decreases t.nodes@.len() - i,
    {
        assert(decreases_to!(t => t.nodes));
        let c = clone_node(&t.nodes[i]);
        nodes.push(c);
        i = i + 1;
    }
    let mut canonical: Vec<u8> = Vec::new();
    push_all(&mut canonical, t.canonical.as_slice());
    proof {
        assert(canonical@ =~= t.canonical@);
        assert forall|a: int, b: int| 0 <= a < b < nodes@.len() implies node_lt(
            #[trigger] nodes@[a],
            #[trigger] nodes@[b],
        ) by {
            lemma_node_same_order(t.nodes@[a], nodes@[a], t.nodes@[b], nodes@[b]);
            lemma_node_trichotomy(nodes@[a], t.nodes@[a]);
            lemma_node_trichotomy(nodes@[b], t.nodes@[b]);
        }
        lemma_join_pointwise(nodes@, t.nodes@);
    }
    QuorumTree {
        canonical_id: t.canonical_id.clone(),
        canonical,
        quorum_size: t.quorum_size,
        nodes,
    }
}

impl<ID: NodeId> Clone for Node<ID> {
    /// A copy of the child that is the same child, with the same canonical ID.
    fn clone(&self) -> (r: Self)
        ensures
            node_same(r, *self),
            node_canonical(r) == node_canonical(*self),
    {
        clone_node(self)
    }
}

impl<ID: NodeId> Clone for QuorumTree<ID> {
    /// A copy with the same quorum size, the same canonical ID and the same
    /// children.
    fn clone(&self) -> (r: Self)
        ensures
            r.canonical_spec() == self.canonical_spec(),
            r.quorum_size_spec() == self.quorum_size_spec(),
            r.children_spec().len() == self.children_spec().len(),
            forall|i: int| 0 <= i < self.children_spec().len() ==> node_same(
                #[trigger] r.children_spec()[i],
                self.children_spec()[i],
            ),
    {
        clone_tree(self)
    }
}

impl<ID: NodeId> QuorumTree<ID> {
    /// Builds a quorum tree from a quorum size and child nodes.
    ///
    /// `quorum_size` is the number of children that must be selected for the
    /// tree to be selected; `0` accepts every input. Children are stored in
    /// canonical order.
    ///
    /// Errors: [`QuorumTreeError::DuplicateChild`] names the first child that
    /// repeats an earlier one; [`QuorumTreeError::UnsatisfiableQuorum`] when
    /// `quorum_size` exceeds the number of children.
    pub fn new(quorum_size: u64, nodes: Vec<Node<ID>>) -> (r: Result<QuorumTree<ID>, QuorumTreeError>)
        ensures
            match r {
                Ok(t) => {
                    &&& !has_duplicates(nodes@)
                    &&& quorum_size <= nodes@.len()
                    &&& t.built_from(quorum_size, nodes@)
                    &&& t.canonical_wf()
                    &&& t.canonical_spec().len() <= MAX_TREE_ID_LEN
                },
                Err(QuorumTreeError::DuplicateChild { canonical_id }) => names_first_duplicate(
                    nodes@,
                    canonical_id@,
                ),
                Err(QuorumTreeError::UnsatisfiableQuorum { quorum_size: q, num_children }) => {
                    &&& !has_duplicates(nodes@)
                    &&& q == quorum_size
                    &&& num_children == nodes@.len()
                    &&& quorum_size > nodes@.len()
                },
            },
    {
        let ghost input = nodes@;
        let total = nodes.len();
        let mut rest = nodes;
        let mut sorted: Vec<Node<ID>> = Vec::new();
        let mut k: usize = 0;
        while rest.len() > 0
            invariant
                k + rest@.len() == total,
                total == input.len(),
                input == nodes@,
                rest@ == input.subrange(k as int, input.len() as int),
                nodes_sorted(sorted@),
                sorted@.to_multiset() == input.subrange(0, k as int).to_multiset(),
                forall|j: int| 0 <= j < k ==> !#[trigger] repeats_earlier(input, j),
            decreases rest.len(),
        {
            let node = rest.remove(0);
            assert(node == input[k as int]);
            let mut j: usize = 0;
            while j < sorted.len() && node_compare(&sorted[j], &node) < 0
                invariant
                    0 <= j <= sorted.len(),
                    forall|m: int| 0 <= m < j ==> node_lt(#[trigger] sorted@[m], node),
                decreases sorted.len() - j,
            {
                j = j + 1;
            }
            if j < sorted.len() && node_compare(&sorted[j], &node) == 0 {
                proof {
                    let prev = sorted@[j as int];
                    assert(sorted@.contains(prev));
                    assert(sorted@.to_multiset().count(prev) > 0);
                    assert(input.subrange(0, k as int).contains(prev));
                    let i = choose|i: int| 0 <= i < k && input.subrange(0, k as int)[i] == prev;
                    assert(input[i] == prev);
                    lemma_node_trichotomy(prev, node);
                    assert(node_same(input[i], input[k as int]));
                    assert(repeats_earlier(input, k as int));
                    assert(is_first_duplicate(input, k as int));
                }
                let mut raw: Vec<u8> = Vec::new();
                push_node_canonical(&mut raw, &node);
                assert(raw@ =~= node_canonical(input[k as int]));
                let c = ascii_to_string(raw);
                assert(is_first_duplicate(input, k as int) && c@ == ascii_chars(node_canonical(input[k as int])));
                assert(names_first_duplicate(input, c@));
                return Err(QuorumTreeError::DuplicateChild { canonical_id: c });
            }
            proof {
                // `node` differs from every child collected so far.
                if j < sorted.len() {
                    lemma_node_trichotomy(sorted@[j as int], node);
                }
                assert forall|m: int| 0 <= m < sorted@.len() implies !node_same(#[trigger] sorted@[m], node) by {
                    lemma_node_trichotomy(sorted@[m], node);
                    if m > j {
                        lemma_node_transitive(node, sorted@[j as int], sorted@[m]);
                    }
                }
                assert forall|i: int| 0 <= i < k implies !node_same(input[i], node) by {
                    let x = input[i];
                    assert(input.subrange(0, k as int)[i] == x);
                    assert(input.subrange(0, k as int).contains(x));
                    assert(input.subrange(0, k as int).to_multiset().count(x) > 0);
                    assert(sorted@.contains(x));
                    let m = choose|m: int| 0 <= m < sorted@.len() && sorted@[m] == x;
                    assert(!node_same(sorted@[m], node));
                }
                assert(!repeats_earlier(input, k as int));
            }
            let ghost before = sorted@;
            sorted.insert(j, node);
            proof {
                assert forall|a: int, b: int| 0 <= a < b < sorted@.len() implies node_lt(
                    #[trigger] sorted@[a],
                    #[trigger] sorted@[b],
                ) by {
                    if b < j {
                        assert(before[a] == sorted@[a] && before[b] == sorted@[b]);
                    } else if b == j {
                        assert(before[a] == sorted@[a]);
                    } else if a < j {
                        assert(sorted@[b] == before[b - 1]);
                        assert(node_lt(before[a], node));
                        lemma_node_trichotomy(before[j as int], node);
                        if b - 1 > j {
                            assert(node_lt(before[j as int], before[b - 1]));
                            lemma_node_transitive(node, before[j as int], before[b - 1]);
                        }
                        lemma_node_transitive(before[a], node, before[b - 1]);
                    } else if a == j {
                        assert(sorted@[b] == before[b - 1]);
                        lemma_node_trichotomy(before[j as int], node);
                        if b - 1 > j {
                            assert(node_lt(before[j as int], before[b - 1]));
                            lemma_node_transitive(node, before[j as int], before[b - 1]);
                        }
                    } else {
                        assert(sorted@[a] == before[a - 1]);
                        assert(sorted@[b] == before[b - 1]);
                    }
                }
                assert(input.subrange(0, k + 1) =~= input.subrange(0, k as int).push(node));
            }
            k = k + 1;
        }
        assert(input.subrange(0, input.len() as int) =~= input);
        assert(sorted@.to_multiset().len() == sorted@.len());
        assert(input.to_multiset().len() == input.len());
        if quorum_size > sorted.len() as u64 {
            proof {
                sorted@.to_multiset_ensures();
                input.to_multiset_ensures();
            }
            assert(sorted@.len() == input.len());
            return Err(QuorumTreeError::UnsatisfiableQuorum { quorum_size, num_children: sorted.len() });
        }
        assert(sorted@.len() == input.len());
        let canonical = build_canonical(quorum_size, &sorted);
        let canonical_id = ascii_to_string(canonical.clone());
        Ok(QuorumTree { canonical_id, canonical, quorum_size, nodes: sorted })
    }

    /// The number of selected children required to satisfy this tree.
    pub fn quorum_size(&self) -> (r: u64)
        ensures
            r == self.quorum_size_spec(),
            r <= self.children_spec().len(),
    {
        proof {
            use_type_invariant(self);
        }
        self.quorum_size
    }

    /// The number of selected children required to satisfy this tree; the
    /// same value as [`QuorumTree::quorum_size`].
    pub fn quorum_num(&self) -> (r: u64)
        ensures
            r == self.quorum_size_spec(),
    {
        self.quorum_size
    }

    /// This tree's children in canonical order; no child occurs twice.
    pub fn children(&self) -> (r: &[Node<ID>])
        ensures
            r@ == self.children_spec(),
            nodes_sorted(r@),
    {
        proof {
            use_type_invariant(self);
        }
        self.nodes.as_slice()
    }

    /// The canonical ID of this tree, computed once at construction.
    pub fn canonical_id(&self) -> (r: &str)
        ensures
            r@ == ascii_chars(tree_canonical(self.quorum_size_spec(), self.children_spec())),
            self.canonical_spec() == tree_canonical(self.quorum_size_spec(), self.children_spec()),
            r@.len() <= MAX_TREE_ID_LEN,
            self.canonical_wf(),
    {
        proof {
            use_type_invariant(self);
        }
        self.canonical_id.as_str()
    }

    /// The canonical ID of this tree as bytes.
    pub(crate) fn canonical_bytes(&self) -> (r: &[u8])
        ensures
            r@ == self.canonical_spec(),
    {
        self.canonical.as_slice()
    }
}

// ---------------------------------------------------------------------------
// Quorum semantics.

/// Whether the candidate IDs `s` select a child: a leaf ID is selected when
/// it is in `s`, a subtree when `s` satisfies it.
pub open spec fn node_selected<ID: NodeId>(n: Node<ID>, s: Set<ID::V>) -> bool
    decreases n, 0int,
{
    match n {
        Node::Id(i) => s.contains(i@),
        Node::Subtree(t) => tree_accepts(t, s),
    }
}

/// Whether `s` satisfies a tree: at least `quorum_size` children are
/// selected.
pub open spec fn tree_accepts<ID: NodeId>(t: QuorumTree<ID>, s: Set<ID::V>) -> bool
    decreases t, t.children_spec().len() + 1,
{
    selected_count(t, t.children_spec().len() as int, s) >= t.quorum_size_spec()
}

/// The number of the first `k` children of `t` that `s` selects.
pub open spec fn selected_count<ID: NodeId>(t: QuorumTree<ID>, k: int, s: Set<ID::V>) -> nat
    decreases t, k,
{
    if k <= 0 || k > t.children_spec().len() {
        0
    } else {
        selected_count(t, k - 1, s) + if node_selected(t.children_spec()[k - 1], s) {
            1nat
        } else {
            0nat
        }
    }
}

/// The leaf IDs of a child.
pub open spec fn node_voters<ID: NodeId>(n: Node<ID>) -> Set<ID::V>
    decreases n, 0int,
{
    match n {
        Node::Id(i) => set![i@],
        Node::Subtree(t) => tree_voters(t),
    }
}

/// The leaf IDs of a tree, each once even when it occurs in several subtrees.
pub open spec fn tree_voters<ID: NodeId>(t: QuorumTree<ID>) -> Set<ID::V>
    decreases t, t.children_spec().len() + 1,
{
    voters_prefix(t, t.children_spec().len() as int)
}

/// The leaf IDs of the first `k` children of `t`.
pub open spec fn voters_prefix<ID: NodeId>(t: QuorumTree<ID>, k: int) -> Set<ID::V>
    decreases t, k,
{
    if k <= 0 || k > t.children_spec().len() {
        Set::empty()
    } else {
        voters_prefix(t, k - 1).union(node_voters(t.children_spec()[k - 1]))
    }
}

proof fn lemma_selected_monotone<ID: NodeId>(n: Node<ID>, a: Set<ID::V>, b: Set<ID::V>)
    requires
        a.subset_of(b),
    ensures
        node_selected(n, a) ==> node_selected(n, b),
    decreases n, 0int,
{
    match n {
        Node::Id(_) => {},
        Node::Subtree(t) => lemma_accepts_monotone(t, a, b),
    }
}

proof fn lemma_accepts_monotone<ID: NodeId>(t: QuorumTree<ID>, a: Set<ID::V>, b: Set<ID::V>)
    requires
        a.subset_of(b),
    ensures
        tree_accepts(t, a) ==> tree_accepts(t, b),
    decreases t, t.children_spec().len() + 1,
{
    lemma_count_monotone(t, t.children_spec().len() as int, a, b);
}

proof fn lemma_count_monotone<ID: NodeId>(t: QuorumTree<ID>, k: int, a: Set<ID::V>, b: Set<ID::V>)
    requires
        a.subset_of(b),
    ensures
        selected_count(t, k, a) <= selected_count(t, k, b),
    decreases t, k,
{
    if 0 < k <= t.children_spec().len() {
        lemma_count_monotone(t, k - 1, a, b);
        lemma_selected_monotone(t.children_spec()[k - 1], a, b);
    }
}

proof fn lemma_count_grows<ID: NodeId>(t: QuorumTree<ID>, j: int, k: int, s: Set<ID::V>)
    requires
        0 <= j <= k <= t.children_spec().len(),
    ensures
        selected_count(t, j, s) <= selected_count(t, k, s),
        selected_count(t, k, s) <= k,
    decreases k,
{
    if k > 0 {
        if j < k {
            lemma_count_grows(t, j, k - 1, s);
        } else {
            lemma_count_grows(t, k - 1, k - 1, s);
        }
    }
}

proof fn lemma_selected_agree<ID: NodeId>(n: Node<ID>, a: Set<ID::V>, b: Set<ID::V>)
    requires
        a.intersect(node_voters(n)) == b.intersect(node_voters(n)),
    ensures
        node_selected(n, a) == node_selected(n, b),
    decreases n, 0int,
{
    match n {
        Node::Id(i) => {
            assert(a.intersect(node_voters(n)).contains(i@) == a.contains(i@));
            assert(b.intersect(node_voters(n)).contains(i@) == b.contains(i@));
        },
        Node::Subtree(t) => lemma_accepts_agree(t, a, b),
    }
}

proof fn lemma_accepts_agree<ID: NodeId>(t: QuorumTree<ID>, a: Set<ID::V>, b: Set<ID::V>)
    requires
        a.intersect(tree_voters(t)) == b.intersect(tree_voters(t)),
    ensures
        tree_accepts(t, a) == tree_accepts(t, b),
    decreases t, t.children_spec().len() + 1,
{
    lemma_count_agree(t, t.children_spec().len() as int, a, b);
}

proof fn lemma_count_agree<ID: NodeId>(t: QuorumTree<ID>, k: int, a: Set<ID::V>, b: Set<ID::V>)
    requires
        a.intersect(voters_prefix(t, k)) == b.intersect(voters_prefix(t, k)),
    ensures
        selected_count(t, k, a) == selected_count(t, k, b),
    decreases t, k,
{
    if 0 < k <= t.children_spec().len() {
        let x = voters_prefix(t, k - 1);
        let y = node_voters(t.children_spec()[k - 1]);
        let vp = voters_prefix(t, k);
        assert(vp == x.union(y));
        assert forall|v: ID::V| vp.contains(v) implies (a.contains(v) == b.contains(v)) by {
            assert(a.intersect(vp).contains(v) == a.contains(v));
            assert(b.intersect(vp).contains(v) == b.contains(v));
        }
        assert(a.intersect(x) =~= b.intersect(x)) by {
            assert forall|v: ID::V| x.contains(v) implies (a.contains(v) == b.contains(v)) by {
                assert(vp.contains(v));
            }
        }
        assert(a.intersect(y) =~= b.intersect(y)) by {
            assert forall|v: ID::V| y.contains(v) implies (a.contains(v) == b.contains(v)) by {
                assert(vp.contains(v));
            }
        }
        lemma_count_agree(t, k - 1, a, b);
        lemma_selected_agree(t.children_spec()[k - 1], a, b);
    }
}

proof fn lemma_node_voters_finite<ID: NodeId>(n: Node<ID>)
    ensures
        node_voters(n).finite(),
    decreases n, 0int,
{
    match n {
        Node::Id(_) => {},
        Node::Subtree(t) => lemma_tree_voters_finite(t),
    }
}

proof fn lemma_tree_voters_finite<ID: NodeId>(t: QuorumTree<ID>)
    ensures
        tree_voters(t).finite(),
    decreases t, t.children_spec().len() + 1,
{
    lemma_prefix_voters_finite(t, t.children_spec().len() as int);
}

proof fn lemma_prefix_voters_finite<ID: NodeId>(t: QuorumTree<ID>, k: int)
    ensures
        voters_prefix(t, k).finite(),
    decreases t, k,
{
    if 0 < k <= t.children_spec().len() {
        lemma_prefix_voters_finite(t, k - 1);
        lemma_node_voters_finite(t.children_spec()[k - 1]);
    }
}

impl<ID: NodeId> Node<ID> {
    /// Returns whether `ids` select this child: a leaf ID when it is in
    /// `ids`, a subtree when `ids` satisfy it.
    pub fn is_selected_by(&self, ids: &[ID]) -> (r: bool)
        ensures
            r == node_selected(*self, view_set(ids@)),
        decreases self,
    {
        match self {
            Node::Id(i) => contains_id(ids, i),
            Node::Subtree(t) => t.accepts_ids(ids),
        }
    }
}

impl<ID: NodeId> QuorumTree<ID> {
    fn accepts_ids(&self, ids: &[ID]) -> (r: bool)
        ensures
            r == tree_accepts(*self, view_set(ids@)),
        decreases self,
    {
        proof {
            use_type_invariant(self);
        }
        let ghost s = view_set(ids@);
        let required = self.quorum_size;
        if required == 0 {
            proof {
                lemma_count_grows(*self, 0, self.nodes@.len() as int, s);
            }
            return true;
        }
        let mut count: u64 = 0;
        let mut i: usize = 0;
        while i < self.nodes.len()
            invariant
                0 <= i <= self.nodes@.len(),
                self.nodes@ == self.children_spec(),
                required == self.quorum_size_spec(),
                required > 0,
                s == view_set(ids@),
                count == selected_count(*self, i as int, s),
                count <= i,
                count < required,
            decreases self.nodes@.len() - i,
        {
            assert(decreases_to!(self => self.nodes));
            if self.nodes[i].is_selected_by(ids) {
                count = count + 1;
            }
            i = i + 1;
            if count >= required {
                proof {
                    lemma_count_grows(*self, i as int, self.nodes@.len() as int, s);
                }
                return true;
            }
        }
        false
    }
}

/// Adds the leaf IDs of `t` to a strictly increasing vector.
fn collect_tree_ids<ID: NodeId>(t: &QuorumTree<ID>, out: &mut Vec<ID>)
    requires
        ids_sorted(old(out)@),
    ensures
        ids_sorted(final(out)@),
        view_set(final(out)@) == view_set(old(out)@).union(tree_voters(*t)),
    decreases t,
{
    let mut i: usize = 0;
    assert(view_set(old(out)@) =~= view_set(old(out)@).union(voters_prefix(*t, 0)));
    while i < t.nodes.len()
        invariant
            0 <= i <= t.nodes@.len(),
            t.nodes@ == t.children_spec(),
            ids_sorted(out@),
            view_set(out@) == view_set(old(out)@).union(voters_prefix(*t, i as int)),
        decreases t.nodes@.len() - i,
    {
        assert(decreases_to!(t => t.nodes));
        assert(voters_prefix(*t, i + 1) == voters_prefix(*t, i as int).union(node_voters(t.nodes@[i as int])));
        match &t.nodes[i] {
            Node::Id(id) => {
                insert_id_sorted(out, id);
                assert(node_voters(t.nodes@[i as int]) == set![id@]);
            },
            Node::Subtree(sub) => {
                collect_tree_ids(sub, out);
                assert(node_voters(t.nodes@[i as int]) == tree_voters(*sub));
            },
        }
        i = i + 1;
        assert(view_set(out@) =~= view_set(old(out)@).union(voters_prefix(*t, i as int)));
    }
}

impl<ID: NodeId> QuorumSet for QuorumTree<ID> {
    type Id = ID;

    open spec fn voters(&self) -> Set<ID::V> {
        tree_voters(*self)
    }

    open spec fn accepts(&self, ids: Set<ID::V>) -> bool {
        tree_accepts(*self, ids)
    }

    /// Returns whether `ids` satisfy this tree; each child counts at most
    /// once, and repeating an ID does not increase the count.
    fn is_quorum(&self, ids: &[ID]) -> (r: bool) {
        self.accepts_ids(ids)
    }

    /// Every leaf ID once, in ID order, also when a node occurs in more than
    /// one subtree.
    fn ids(&self) -> (r: Vec<ID>)
        ensures
            ids_sorted(r@),
    {
        let mut out: Vec<ID> = Vec::new();
        collect_tree_ids(self, &mut out);
        proof {
            assert(view_set(Seq::<ID>::empty()) =~= Set::<ID::V>::empty());
            assert(view_set(out@) =~= tree_voters(*self));
            lemma_ids_sorted_no_duplicates(out@);
        }
        out
    }

    proof fn lemma_upward_closed(&self, a: Set<ID::V>, b: Set<ID::V>) {
        lemma_accepts_monotone(*self, a, b);
    }

    proof fn lemma_closed_over_voters(&self, s: Set<ID::V>) {
        let v = tree_voters(*self);
        assert(s.intersect(v) =~= s.intersect(v).intersect(v));
        lemma_accepts_agree(*self, s, s.intersect(v));
    }

    proof fn lemma_voters_finite(&self) {
        lemma_tree_voters_finite(*self);
    }
}

// ---------------------------------------------------------------------------
// Flat trees.

/// Every child is a node ID.
pub open spec fn is_flat<ID: NodeId>(t: QuorumTree<ID>) -> bool {
    forall|i: int| 0 <= i < t.children_spec().len() ==> #[trigger] t.children_spec()[i] is Id
}

/// The leaf IDs of the first `k` children of a flat tree are exactly these
/// children's IDs.
proof fn lemma_flat_prefix_members<ID: NodeId>(t: QuorumTree<ID>, k: int, v: ID::V)
    requires
        is_flat(t),
        0 <= k <= t.children_spec().len(),
    ensures
        voters_prefix(t, k).contains(v) <==> exists|j: int|
            0 <= j < k && (#[trigger] t.children_spec()[j])->Id_0@ == v,
    decreases k,
{
    if k > 0 {
        lemma_flat_prefix_members(t, k - 1, v);
        let c = t.children_spec()[k - 1];
        assert(c is Id);
        if voters_prefix(t, k).contains(v) && !voters_prefix(t, k - 1).contains(v) {
            assert(node_voters(c).contains(v));
            assert(c->Id_0@ == v);
        }
        if exists|j: int| 0 <= j < k && (#[trigger] t.children_spec()[j])->Id_0@ == v {
            let j = choose|j: int| 0 <= j < k && (#[trigger] t.children_spec()[j])->Id_0@ == v;
            if j == k - 1 {
                assert(node_voters(c).contains(v));
            } else {
                assert(t.children_spec()[j] is Id);
            }
        }
    }
}

/// In a flat tree in canonical order, the first `k` children select as many
/// children as there are candidate IDs among their leaf IDs, and there are
/// `k` such IDs.
proof fn lemma_flat_count<ID: NodeId>(t: QuorumTree<ID>, k: int, s: Set<ID::V>)
    requires
        is_flat(t),
        nodes_sorted(t.children_spec()),
        0 <= k <= t.children_spec().len(),
    ensures
        voters_prefix(t, k).finite(),
        voters_prefix(t, k).len() == k,
        selected_count(t, k, s) == voters_prefix(t, k).intersect(s).len(),
    decreases k,
{
    lemma_prefix_voters_finite(t, k);
    if k == 0 {
        assert(voters_prefix(t, 0).intersect(s) =~= Set::empty());
    } else {
        lemma_flat_count(t, k - 1, s);
        let c = t.children_spec()[k - 1];
        assert(c is Id);
        let v = c->Id_0@;
        let prev = voters_prefix(t, k - 1);
        assert(node_voters(c) == set![v]);
        assert(voters_prefix(t, k) == prev.insert(v)) by {
            assert(prev.union(set![v]) =~= prev.insert(v));
        }
        assert(!prev.contains(v)) by {
            lemma_flat_prefix_members(t, k - 1, v);
            if prev.contains(v) {
                let j = choose|j: int| 0 <= j < k - 1 && (#[trigger] t.children_spec()[j])->Id_0@ == v;
                assert(t.children_spec()[j] is Id);
                assert(node_lt(t.children_spec()[j], t.children_spec()[k - 1]));
                ID::lemma_id_order(v, v);
            }
        }
        lemma_prefix_voters_finite(t, k - 1);
        assert(selected_count(t, k, s) == selected_count(t, k - 1, s) + if node_selected(c, s) {
            1nat
        } else {
            0nat
        });
        assert(node_selected(c, s) == s.contains(v));
        assert(prev.intersect(s).finite());
        assert(!prev.intersect(s).contains(v));
        if s.contains(v) {
            assert(prev.insert(v).intersect(s) =~= prev.intersect(s).insert(v));
            assert(prev.intersect(s).insert(v).len() == prev.intersect(s).len() + 1);
        } else {
            assert(prev.insert(v).intersect(s) =~= prev.intersect(s));
        }
    }
}

/// A flat tree whose quorum size is `n / 2 + 1` for its `n` children is the
/// usual majority rule over its IDs.
pub proof fn lemma_flat_majority_tree<ID: NodeId>(t: QuorumTree<ID>, s: Set<ID::V>)
    requires
        nodes_sorted(t.children_spec()),
        is_flat(t),
        t.quorum_size_spec() == t.children_spec().len() / 2 + 1,
    ensures
        t.accepts(s) == majority_accepts(t.voters(), s),
{
    let n = t.children_spec().len() as int;
    lemma_flat_count(t, n, s);
    let v = tree_voters(t);
    assert(v.intersect(s) =~= v.intersect(s));
    assert(s.intersect(v) =~= v.intersect(s));
}

/// The first `k` children are all selected exactly when `k` of them are.
proof fn lemma_all_selected<ID: NodeId>(t: QuorumTree<ID>, k: int, s: Set<ID::V>)
    requires
        0 <= k <= t.children_spec().len(),
    ensures
        selected_count(t, k, s) == k <==> forall|j: int| 0 <= j < k ==> #[trigger] node_selected(
            t.children_spec()[j],
            s,
        ),
    decreases k,
{
    if k > 0 {
        lemma_all_selected(t, k - 1, s);
        lemma_count_grows(t, k - 1, k - 1, s);
        let c = t.children_spec()[k - 1];
        assert(selected_count(t, k, s) == selected_count(t, k - 1, s) + if node_selected(c, s) {
            1nat
        } else {
            0nat
        });
        if selected_count(t, k, s) == k {
            assert forall|j: int| 0 <= j < k implies #[trigger] node_selected(t.children_spec()[j], s) by {
                if j < k - 1 {
                    assert(node_selected(t.children_spec()[j], s));
                }
            }
        }
        if forall|j: int| 0 <= j < k ==> #[trigger] node_selected(t.children_spec()[j], s) {
            assert(node_selected(c, s));
            assert forall|j: int| 0 <= j < k - 1 implies #[trigger] node_selected(t.children_spec()[j], s) by {
                assert(node_selected(t.children_spec()[j], s));
            }
        }
    }
}

/// A flat majority tree: every child a node ID, in canonical order, and a
/// quorum size of `n / 2 + 1` for `n` children.
pub open spec fn is_flat_majority<ID: NodeId>(t: QuorumTree<ID>) -> bool {
    &&& nodes_sorted(t.children_spec())
    &&& is_flat(t)
    &&& t.quorum_size_spec() == t.children_spec().len() / 2 + 1
}

/// A tree that requires every one of its children, each a flat majority tree
/// over the IDs of one member config, is the joint quorum set of those
/// configs: it accepts exactly the ID sets that hold a majority of every
/// config.
pub proof fn lemma_tree_of_majorities_is_joint(t: QuorumTree<u64>, configs: Vec<BTreeSet<u64>>, s: Set<u64>)
    requires
        t.quorum_size_spec() == t.children_spec().len(),
        configs@.len() == t.children_spec().len(),
        forall|i: int|
            0 <= i < configs@.len() ==> {
                &&& #[trigger] t.children_spec()[i] is Subtree
                &&& is_flat_majority(t.children_spec()[i]->Subtree_0)
                &&& tree_voters(t.children_spec()[i]->Subtree_0) == configs@[i]@
            },
    ensures
        t.accepts(s) == configs.accepts(s),
{
    let n = t.children_spec().len() as int;
    lemma_all_selected(t, n, s);
    lemma_count_grows(t, n, n, s);
    assert forall|i: int| 0 <= i < n implies node_selected(t.children_spec()[i], s) == majority_accepts(
        #[trigger] configs@[i]@,
        s,
    ) by {
        let sub = t.children_spec()[i]->Subtree_0;
        assert(t.children_spec()[i] == Node::Subtree(sub));
        lemma_flat_majority_tree(sub, s);
    }
    if t.accepts(s) {
        assert forall|i: int| 0 <= i < configs@.len() implies majority_accepts(#[trigger] configs@[i]@, s) by {
            assert(node_selected(t.children_spec()[i], s));
        }
    }
    if configs.accepts(s) {
        assert forall|j: int| 0 <= j < n implies #[trigger] node_selected(t.children_spec()[j], s) by {
            assert(majority_accepts(configs@[j]@, s));
        }
    }
}

/// The leaf nodes of the given IDs.
pub open spec fn id_nodes(ids: Seq<u64>) -> Seq<Node<u64>> {
    ids.map_values(|i: u64| Node::Id(i))
}

/// The subtree nodes of the given trees.
pub open spec fn subtree_nodes(ts: Seq<QuorumTree<u64>>) -> Seq<Node<u64>> {
    ts.map_values(|t: QuorumTree<u64>| Node::Subtree(t))
}

proof fn lemma_same_multiset_contains<T>(a: Seq<T>, b: Seq<T>, x: T)
    requires
        a.to_multiset() == b.to_multiset(),
    ensures
        a.contains(x) == b.contains(x),
{
    vstd::seq_lib::to_multiset_contains(a, x);
    vstd::seq_lib::to_multiset_contains(b, x);
    assert(a.to_multiset().count(x) == b.to_multiset().count(x));
}

/// A tree built from distinct IDs with a quorum size of more than half of
/// them is the majority rule over those IDs.
proof fn lemma_built_majority(sub: QuorumTree<u64>, ids: Seq<u64>, s: Set<u64>)
    requires
        sub.quorum_size_spec() == ids.len() / 2 + 1,
        sub.built_from(sub.quorum_size_spec(), id_nodes(ids)),
    ensures
        sub.accepts(s) == majority_accepts(ids.to_set(), s),
{
    let ch = sub.children_spec();
    let nodes = id_nodes(ids);
    assert(ch.len() == nodes.len()) by {
        assert(ch.to_multiset().len() == nodes.to_multiset().len());
    }
    assert forall|i: int| 0 <= i < ch.len() implies #[trigger] ch[i] is Id by {
        assert(ch.contains(ch[i]));
        lemma_same_multiset_contains(ch, nodes, ch[i]);
    }
    let n = ch.len() as int;
    assert forall|v: u64| tree_voters(sub).contains(v) <==> ids.to_set().contains(v) by {
        lemma_flat_prefix_members(sub, n, v);
        if tree_voters(sub).contains(v) {
            let j = choose|j: int| 0 <= j < n && (#[trigger] ch[j])->Id_0@ == v;
            assert(ch.contains(ch[j]));
            lemma_same_multiset_contains(ch, nodes, ch[j]);
            let k = choose|k: int| 0 <= k < nodes.len() && nodes[k] == ch[j];
            assert(ids[k] == v);
        }
        if ids.to_set().contains(v) {
            let k = choose|k: int| 0 <= k < ids.len() && ids[k] == v;
            assert(nodes[k] == Node::<u64>::Id(v));
            assert(nodes.contains(Node::<u64>::Id(v)));
            lemma_same_multiset_contains(ch, nodes, Node::<u64>::Id(v));
            let j = choose|j: int| 0 <= j < n && ch[j] == Node::<u64>::Id(v);
            assert(ch[j]->Id_0@ == v);
        }
    }
    assert(tree_voters(sub) =~= ids.to_set());
    lemma_flat_majority_tree(sub, s);
}

/// A tree built from one subtree per member config, requiring all of them,
/// where each subtree is built from the IDs of its config with a quorum size
/// of more than half of them, accepts exactly the ID sets that hold a
/// majority of every config: the joint quorum set of the configs.
pub proof fn lemma_built_majorities_are_joint(
    t: QuorumTree<u64>,
    subs: Seq<QuorumTree<u64>>,
    leaves: Seq<Seq<u64>>,
    configs: Vec<BTreeSet<u64>>,
    s: Set<u64>,
)
    requires
        configs@.len() == subs.len(),
        leaves.len() == subs.len(),
        forall|i: int|
            0 <= i < subs.len() ==> {
                &&& (#[trigger] leaves[i]).to_set() == configs@[i]@
                &&& subs[i].quorum_size_spec() == leaves[i].len() / 2 + 1
                &&& subs[i].built_from(subs[i].quorum_size_spec(), id_nodes(leaves[i]))
            },
        t.quorum_size_spec() == subs.len(),
        t.built_from(t.quorum_size_spec(), subtree_nodes(subs)),
    ensures
        t.accepts(s) == configs.accepts(s),
{
    let ch = t.children_spec();
    let nodes = subtree_nodes(subs);
    let n = ch.len() as int;
    assert(ch.len() == nodes.len()) by {
        assert(ch.to_multiset().len() == nodes.to_multiset().len());
    }
    assert forall|i: int| 0 <= i < subs.len() implies subs[i].accepts(s) == majority_accepts(
        #[trigger] configs@[i]@,
        s,
    ) by {
        assert(leaves[i].to_set() == configs@[i]@);
        lemma_built_majority(subs[i], leaves[i], s);
    }
    lemma_all_selected(t, n, s);
    lemma_count_grows(t, n, n, s);
    if t.accepts(s) {
        assert forall|i: int| 0 <= i < configs@.len() implies majority_accepts(#[trigger] configs@[i]@, s) by {
            assert(nodes[i] == Node::Subtree(subs[i]));
            assert(nodes.contains(nodes[i]));
            lemma_same_multiset_contains(ch, nodes, nodes[i]);
            let j = choose|j: int| 0 <= j < n && ch[j] == nodes[i];
            assert(node_selected(ch[j], s));
        }
    }
    if configs.accepts(s) {
        assert forall|j: int| 0 <= j < n implies #[trigger] node_selected(ch[j], s) by {
            assert(ch.contains(ch[j]));
            lemma_same_multiset_contains(ch, nodes, ch[j]);
            let i = choose|i: int| 0 <= i < nodes.len() && nodes[i] == ch[j];
            assert(majority_accepts(configs@[i]@, s));
        }
    }
}

// ---------------------------------------------------------------------------
// Order independence of construction.

proof fn lemma_sorted_drop_first<ID: NodeId>(s: Seq<Node<ID>>)
    requires
        nodes_sorted(s),
        s.len() > 0,
    ensures
        nodes_sorted(s.drop_first()),
        s.drop_first().to_multiset() == s.to_multiset().remove(s[0]),
{
    assert(s.remove(0) =~= s.drop_first());
    assert forall|i: int, j: int| 0 <= i < j < s.drop_first().len() implies node_lt(
        #[trigger] s.drop_first()[i],
        #[trigger] s.drop_first()[j],
    ) by {
        assert(s.drop_first()[i] == s[i + 1]);
        assert(s.drop_first()[j] == s[j + 1]);
    }
}

/// Two arrangements of the same children in canonical order are equal.
pub proof fn lemma_sorted_arrangement_unique<ID: NodeId>(s1: Seq<Node<ID>>, s2: Seq<Node<ID>>)
    requires
        nodes_sorted(s1),
        nodes_sorted(s2),
        s1.to_multiset() == s2.to_multiset(),
    ensures
        s1 == s2,
    decreases s1.len(),
{
    assert(s1.to_multiset().len() == s1.len());
    assert(s2.to_multiset().len() == s2.len());
    if s1.len() > 0 {
        let a = s1[0];
        let b = s2[0];
        assert(s1.contains(a));
        assert(s1.to_multiset().count(a) > 0);
        assert(s2.contains(a));
        assert(s2.to_multiset().count(b) > 0);
        assert(s1.contains(b));
        let k = choose|k: int| 0 <= k < s2.len() && s2[k] == a;
        let m = choose|m: int| 0 <= m < s1.len() && s1[m] == b;
        if a != b {
            if k > 0 && m > 0 {
                assert(node_lt(b, a));
                assert(node_lt(a, b));
                lemma_node_trichotomy(a, b);
            }
        }
        assert(a == b);
        lemma_sorted_drop_first(s1);
        lemma_sorted_drop_first(s2);
        lemma_sorted_arrangement_unique(s1.drop_first(), s2.drop_first());
        assert(s1 =~= seq![a] + s1.drop_first());
        assert(s2 =~= seq![b] + s2.drop_first());
    } else {
        assert(s1 =~= s2);
    }
}

/// Construction does not depend on the order of the children: building a
/// tree from any arrangement of the same children gives the same children in
/// the same order and the same canonical ID.
pub proof fn lemma_new_ignores_child_order<ID: NodeId>(
    t1: QuorumTree<ID>,
    t2: QuorumTree<ID>,
    quorum_size: u64,
    input1: Seq<Node<ID>>,
    input2: Seq<Node<ID>>,
)
    requires
        input1.to_multiset() == input2.to_multiset(),
        t1.built_from(quorum_size, input1),
        t2.built_from(quorum_size, input2),
    ensures
        t1.children_spec() == t2.children_spec(),
        t1.canonical_spec() == t2.canonical_spec(),
{
    lemma_sorted_arrangement_unique(t1.children_spec(), t2.children_spec());
}

// ---------------------------------------------------------------------------
// Human-readable display.

/// Display of a child: the ID's text, or the subtree's display.
pub open spec fn display_node<ID: DisplayId>(n: Node<ID>) -> Seq<char>
    decreases n, 0int,
{
    match n {
        Node::Id(i) => ID::text_of(i@),
        Node::Subtree(t) => display_tree(t),
    }
}

/// Single-line display of a tree, such as `2/(1,2,1/(3,4))`.
pub open spec fn display_tree<ID: DisplayId>(t: QuorumTree<ID>) -> Seq<char>
    decreases t, t.children_spec().len() + 1,
{
    dec_text(t.quorum_size_spec() as nat) + "/("@ + display_join(t, t.children_spec().len() as int) + ")"@
}

/// Displays of the first `k` children of `t`, separated by `,`.
pub open spec fn display_join<ID: DisplayId>(t: QuorumTree<ID>, k: int) -> Seq<char>
    decreases t, k,
{
    if k <= 0 || k > t.children_spec().len() {
        seq![]
    } else if k == 1 {
        display_node(t.children_spec()[0])
    } else {
        display_join(t, k - 1) + ","@ + display_node(t.children_spec()[k - 1])
    }
}

/// `n` spaces.
pub open spec fn spaces(n: nat) -> Seq<char> {
    Seq::new(n, |i: int| ' ')
}

/// Multi-line display of a child at the given indentation.
pub open spec fn multiline_node<ID: DisplayId>(n: Node<ID>, indent: nat) -> Seq<char>
    decreases n, 0int,
{
    match n {
        Node::Id(i) => ID::text_of(i@),
        Node::Subtree(t) => multiline_tree(t, indent),
    }
}

/// Multi-line display of a tree: one child per line, each indented two more
/// spaces than the tree and followed by `,`.
pub open spec fn multiline_tree<ID: DisplayId>(t: QuorumTree<ID>, indent: nat) -> Seq<char>
    decreases t, t.children_spec().len() + 1,
{
    dec_text(t.quorum_size_spec() as nat) + "/("@ + multiline_items(t, t.children_spec().len() as int, indent) + "\n"@
        + spaces(indent) + ")"@
}

/// The lines of the first `k` children of `t`.
pub open spec fn multiline_items<ID: DisplayId>(t: QuorumTree<ID>, k: int, indent: nat) -> Seq<char>
    decreases t, k,
{
    if k <= 0 || k > t.children_spec().len() {
        seq![]
    } else {
        multiline_items(t, k - 1, indent) + "\n"@ + spaces(indent + 2) + multiline_node(
            t.children_spec()[k - 1],
            indent + 2,
        ) + ","@
    }
}

fn push_node_display<ID: DisplayId>(n: &Node<ID>, out: &mut String)
    ensures
        final(out)@ == old(out)@ + display_node(*n),
    decreases n,
{
    match n {
        Node::Id(i) => i.append_text(out),
        Node::Subtree(t) => push_tree_display(t, out),
    }
}

fn push_tree_display<ID: DisplayId>(t: &QuorumTree<ID>, out: &mut String)
    ensures
        final(out)@ == old(out)@ + display_tree(*t),
    decreases t,
{
    append_decimal(out, t.quorum_size);
    out.append("/(");
    let ghost start = out@;
    let mut i: usize = 0;
    while i < t.nodes.len()
        invariant
            0 <= i <= t.nodes@.len(),
            t.nodes@ == t.children_spec(),
            out@ == start + display_join(*t, i as int),
        decreases t.nodes@.len() - i,
    {
        assert(decreases_to!(t => t.nodes));
        if i > 0 {
            out.append(",");
        }
        push_node_display(&t.nodes[i], out);
        i = i + 1;
        assert(out@ =~= start + display_join(*t, i as int));
    }
    out.append(")");
    assert(final(out)@ =~= old(out)@ + display_tree(*t));
}

fn push_node_multiline<ID: DisplayId>(n: &Node<ID>, out: &mut String, pad: &String)
    requires
        pad@ == spaces(pad@.len()),
    ensures
        final(out)@ == old(out)@ + multiline_node(*n, pad@.len()),
    decreases n,
{
    match n {
        Node::Id(i) => i.append_text(out),
        Node::Subtree(t) => push_tree_multiline(t, out, pad),
    }
}

/// Appends the multi-line display of `t`, indented by `pad`, which holds
/// only spaces.
fn push_tree_multiline<ID: DisplayId>(t: &QuorumTree<ID>, out: &mut String, pad: &String)
    requires
        pad@ == spaces(pad@.len()),
    ensures
        final(out)@ == old(out)@ + multiline_tree(*t, pad@.len()),
    decreases t,
{
    let mut child_pad = String::new();
    child_pad.append(pad.as_str());
    child_pad.append("  ");
    proof {
        reveal_strlit("  ");
    }
    assert(child_pad@ =~= spaces(pad@.len() + 2));
    append_decimal(out, t.quorum_size);
    out.append("/(");
    let ghost start = out@;
    let mut i: usize = 0;
    while i < t.nodes.len()
        invariant
            0 <= i <= t.nodes@.len(),
            t.nodes@ == t.children_spec(),
            child_pad@ == spaces(pad@.len() + 2),
            child_pad@.len() == pad@.len() + 2,
            out@ == start + multiline_items(*t, i as int, pad@.len()),
        decreases t.nodes@.len() - i,
    {
        assert(decreases_to!(t => t.nodes));
        out.append("\n");
        out.append(child_pad.as_str());
        push_node_multiline(&t.nodes[i], out, &child_pad);
        out.append(",");
        i = i + 1;
        assert(out@ =~= start + multiline_items(*t, i as int, pad@.len()));
    }
    out.append("\n");
    out.append(pad.as_str());
    out.append(")");
    assert(final(out)@ =~= old(out)@ + multiline_tree(*t, pad@.len()));
}

impl<ID: DisplayId> QuorumTree<ID> {
    /// Single-line human-readable form, such as `2/(1,2,3)`. It is not a
    /// serialization format; canonical IDs are the stable identifiers.
    pub fn display(&self) -> (r: String)
        ensures
            r@ == display_tree(*self),
    {
        let mut out = String::new();
        push_tree_display(self, &mut out);
        assert(out@ =~= display_tree(*self));
        out
    }

    /// Multi-line human-readable form: one child per line, nested children
    /// indented by two more spaces.
    pub fn display_multiline(&self) -> (r: String)
        ensures
            r@ == multiline_tree(*self, 0),
    {
        let mut out = String::new();
        let pad = String::new();
        assert(pad@ =~= spaces(0));
        push_tree_multiline(self, &mut out, &pad);
        assert(out@ =~= multiline_tree(*self, 0));
        out
    }
}

} // verus!
