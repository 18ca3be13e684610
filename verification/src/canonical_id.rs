//! Deterministic canonical IDs.

use vstd::prelude::*;
use crate::digest::sha256;
use crate::encoding::{
    ascii_chars, ascii_to_string, decimal, escape, hex_lower, lemma_decimal_ascii, lemma_escape_injective,
    lemma_escape_no_hash, push_decimal,
};
use crate::id_syntax::{lemma_decimal_then, lemma_join_unique};
use crate::node_id::NodeId;
use crate::tree::{
    QuorumTree, Node, embed_id, join_canonical, node_canonical, node_same, push_node_canonical, tag_hash, tag_id,
    tag_subtree, tree_body,
};

verus! {

/// Generates a deterministic canonical ID.
///
/// Implementations for application IDs should be stable across process
/// restarts and software versions, and consistent with equality: two values
/// emit the same canonical ID if and only if they are equal.
pub trait CanonicalId {
    /// The canonical ID of this value.
    spec fn canonical_view(&self) -> Seq<char>;

    /// Returns this value's canonical ID.
    fn canonical_id(&self) -> (r: String)
        ensures
            r@ == self.canonical_view(),
    ;
}

impl CanonicalId for u64 {
    /// Decimal digits.
    open spec fn canonical_view(&self) -> Seq<char> {
        ascii_chars(decimal(*self as nat))
    }

    fn canonical_id(&self) -> (r: String) {
        let mut out: Vec<u8> = Vec::new();
        push_decimal(&mut out, *self);
        proof {
            lemma_decimal_ascii(*self as nat);
            assert(out@ =~= decimal(*self as nat));
        }
        ascii_to_string(out)
    }
}

impl CanonicalId for String {
    /// The string itself.
    open spec fn canonical_view(&self) -> Seq<char> {
        self@
    }

    fn canonical_id(&self) -> (r: String) {
        self.clone()
    }
}

impl<ID: NodeId> CanonicalId for QuorumTree<ID> {
    /// The canonical ID computed at construction.
    open spec fn canonical_view(&self) -> Seq<char> {
        ascii_chars(self.canonical_spec())
    }

    fn canonical_id(&self) -> (r: String) {
        let s = QuorumTree::canonical_id(self);
        s.to_owned()
    }
}

impl<ID: NodeId> CanonicalId for Node<ID> {
    /// `Id=` and the embedded ID, or `Subtree=` and the subtree's ID.
    open spec fn canonical_view(&self) -> Seq<char> {
        ascii_chars(node_canonical(*self))
    }

    fn canonical_id(&self) -> (r: String) {
        let mut out: Vec<u8> = Vec::new();
        push_node_canonical(&mut out, self);
        assert(out@ =~= node_canonical(*self));
        ascii_to_string(out)
    }
}

/// Embedded IDs are unambiguous: the same embedding comes from the same
/// canonical bytes, unless both are longer than 64 bytes and their SHA-256
/// digests are written alike.
pub proof fn lemma_embed_id_unambiguous(a: Seq<u8>, b: Seq<u8>)
    requires
        embed_id(a) == embed_id(b),
    ensures
        a == b || (a.len() > 64 && b.len() > 64 && hex_lower(sha256(a)) == hex_lower(sha256(b))),
{
    let e = embed_id(a);
    if a.len() <= 64 && b.len() <= 64 {
        lemma_escape_injective(a, b);
    } else if a.len() <= 64 {
        lemma_escape_no_hash(a);
        assert(embed_id(b)[4] == tag_hash()[4]);
        assert(e.len() >= 7);
        assert(escape(a)[4] == 35);
    } else if b.len() <= 64 {
        lemma_escape_no_hash(b);
        assert(embed_id(a)[4] == tag_hash()[4]);
        assert(escape(b)[4] == 35);
    } else {
        let p = tag_hash() + decimal(1) + seq![58u8];
        assert(p.len() == 7) by {
            assert(decimal(1) =~= seq![49u8]);
        }
        assert(hex_lower(sha256(a)) =~= e.subrange(7, e.len() as int));
        assert(hex_lower(sha256(b)) =~= embed_id(b).subrange(7, e.len() as int));
    }
}

/// Canonical IDs of children are unambiguous: the same child has the same
/// canonical ID, and two children with the same canonical ID are the same
/// child, unless both are IDs whose canonical bytes are longer than 64 bytes
/// and whose SHA-256 digests are written alike.
pub proof fn lemma_node_canonical_unambiguous<ID: NodeId>(a: Node<ID>, b: Node<ID>)
    ensures
        node_same(a, b) ==> node_canonical(a) == node_canonical(b),
        node_canonical(a) == node_canonical(b) ==> node_same(a, b) || (a is Id && b is Id && {
            let ca = ID::canonical_of(a->Id_0@);
            let cb = ID::canonical_of(b->Id_0@);
            ca.len() > 64 && cb.len() > 64 && hex_lower(sha256(ca)) == hex_lower(sha256(cb))
        }),
{
    if node_canonical(a) == node_canonical(b) {
        let ca = node_canonical(a);
        match (a, b) {
            (Node::Id(x), Node::Id(y)) => {
                let ex = embed_id(ID::canonical_of(x@));
                let ey = embed_id(ID::canonical_of(y@));
                assert(ca.subrange(3, ca.len() as int) =~= ex);
                assert(node_canonical(b).subrange(3, ca.len() as int) =~= ey);
                lemma_embed_id_unambiguous(ID::canonical_of(x@), ID::canonical_of(y@));
                if ID::canonical_of(x@) == ID::canonical_of(y@) {
                    ID::lemma_canonical_injective(x@, y@);
                }
            },
            (Node::Id(x), Node::Subtree(_)) => {
                assert(ca[0] == tag_id()[0]);
                assert(node_canonical(b)[0] == tag_subtree()[0]);
            },
            (Node::Subtree(_), Node::Id(y)) => {
                assert(ca[0] == tag_subtree()[0]);
                assert(node_canonical(b)[0] == tag_id()[0]);
            },
            (Node::Subtree(s), Node::Subtree(t)) => {
                assert(ca.subrange(8, ca.len() as int) =~= s.canonical_spec());
                assert(node_canonical(b).subrange(8, ca.len() as int) =~= t.canonical_spec());
            },
        }
    }
}

/// SHA-256 maps two different byte strings to the same digest, written in
/// lower-case hex.
pub open spec fn sha256_hex_collision() -> bool {
    exists|x: Seq<u8>, y: Seq<u8>| x != y && #[trigger] hex_lower(sha256(x)) == #[trigger] hex_lower(sha256(y))
}

/// Tree canonical IDs are unambiguous: two trees with the same canonical ID
/// have the same quorum size and the same children, one by one, unless
/// SHA-256 maps two different byte strings to the same digest. A long tree
/// ID hashes the whole list of its children's IDs.
pub proof fn lemma_tree_canonical_unambiguous<ID: NodeId>(a: QuorumTree<ID>, b: QuorumTree<ID>)
    requires
        a.canonical_wf(),
        b.canonical_wf(),
        a.canonical_spec() == b.canonical_spec(),
    ensures
        a.quorum_size_spec() == b.quorum_size_spec(),
        sha256_hex_collision() || (a.children_spec().len() == b.children_spec().len() && forall|i: int|
            0 <= i < a.children_spec().len() ==> node_same(#[trigger] a.children_spec()[i], b.children_spec()[i])),
{
    let ca = a.children_spec();
    let cb = b.children_spec();
    let ba = tree_body(ca);
    let bb = tree_body(cb);
    let xa = if ba.len() > 64 {
        tag_hash() + decimal(ca.len()) + seq![58u8] + hex_lower(sha256(ba))
    } else {
        ba
    };
    let xb = if bb.len() > 64 {
        tag_hash() + decimal(cb.len()) + seq![58u8] + hex_lower(sha256(bb))
    } else {
        bb
    };
    assert(a.canonical_spec() == decimal(a.quorum_size_spec() as nat) + seq![47u8] + xa);
    assert(b.canonical_spec() == decimal(b.quorum_size_spec() as nat) + seq![47u8] + xb);
    lemma_decimal_then(a.quorum_size_spec() as nat, b.quorum_size_spec() as nat, 47u8, xa, xb);
    assert(ba[0] == 40u8 && bb[0] == 40u8);
    if ba.len() > 64 && bb.len() > 64 {
        let ra = decimal(ca.len()) + seq![58u8] + hex_lower(sha256(ba));
        let rb = decimal(cb.len()) + seq![58u8] + hex_lower(sha256(bb));
        assert(ra =~= xa.skip(5));
        assert(rb =~= xb.skip(5));
        lemma_decimal_then(ca.len(), cb.len(), 58u8, hex_lower(sha256(ba)), hex_lower(sha256(bb)));
        if ba != bb {
            assert(hex_lower(sha256(ba)) == hex_lower(sha256(bb)));
            assert(sha256_hex_collision());
        }
    } else if ba.len() > 64 {
        assert(xa[0] == 72u8);
    } else if bb.len() > 64 {
        assert(xb[0] == 72u8);
    }
    if ba == bb {
        assert(join_canonical(ca) =~= ba.subrange(1, ba.len() - 1));
        assert(join_canonical(cb) =~= bb.subrange(1, bb.len() - 1));
        lemma_join_unique(ca, cb);
        if !sha256_hex_collision() {
            assert forall|i: int| 0 <= i < ca.len() implies node_same(#[trigger] ca[i], cb[i]) by {
                lemma_node_canonical_unambiguous(ca[i], cb[i]);
                if !node_same(ca[i], cb[i]) {
                    let xa_raw = ID::canonical_of(ca[i]->Id_0@);
                    let xb_raw = ID::canonical_of(cb[i]->Id_0@);
                    if xa_raw == xb_raw {
                        ID::lemma_canonical_injective(ca[i]->Id_0@, cb[i]->Id_0@);
                    } else {
                        assert(hex_lower(sha256(xa_raw)) == hex_lower(sha256(xb_raw)));
                        assert(sha256_hex_collision());
                    }
                }
            }
        }
    }
}

} // verus!
