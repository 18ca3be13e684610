//! How canonical IDs read back: parentheses balance, and a list of child IDs
//! joined with `,` splits into its items in exactly one way.

use vstd::prelude::*;
use crate::digest::sha256;
use crate::encoding::{decimal, escape, escape_byte, hex_lower, lemma_decimal_ascii};
use crate::node_id::NodeId;
use crate::tree::{
    embed_id, join_canonical, node_canonical, tag_hash, tag_id, tag_subtree, tree_body, tree_canonical, Node, QuorumTree,
};

verus! {

/// How a byte changes the nesting depth: `(` opens, `)` closes.
pub open spec fn paren_delta(b: u8) -> int {
    if b == 40 {
        1
    } else if b == 41 {
        -1
    } else {
        0
    }
}

/// The nesting depth after reading `s`.
pub open spec fn depth(s: Seq<u8>) -> int
    decreases s.len(),
{
    if s.len() == 0 {
        0
    } else {
        depth(s.drop_last()) + paren_delta(s.last())
    }
}

/// Every prefix of `s` closes no more parentheses than it opens, and `s`
/// closes all it opens.
pub open spec fn balanced(s: Seq<u8>) -> bool {
    &&& depth(s) == 0
    &&& forall|k: int| 0 <= k <= s.len() ==> depth(#[trigger] s.take(k)) >= 0
}

/// A single item of a list: non-empty, balanced, and without `,` or `)`
/// outside its parentheses.
pub open spec fn item_atom(s: Seq<u8>) -> bool {
    &&& s.len() > 0
    &&& balanced(s)
    &&& forall|k: int| 0 <= k < s.len() && depth(#[trigger] s.take(k)) == 0 ==> s[k] != 44 && s[k] != 41
}

/// No `(`, `)` or `,` in `s`.
pub open spec fn no_structure(s: Seq<u8>) -> bool {
    forall|i: int| 0 <= i < s.len() ==> s[i] != 40 && s[i] != 41 && s[i] != 44
}

/// Every child's canonical ID is a single item.
pub open spec fn items_atoms<ID: NodeId>(c: Seq<Node<ID>>) -> bool {
    forall|i: int| 0 <= i < c.len() ==> item_atom(node_canonical(#[trigger] c[i]))
}

pub proof fn lemma_depth_concat(a: Seq<u8>, b: Seq<u8>)
    ensures
        depth(a + b) == depth(a) + depth(b),
    decreases b.len(),
{
    if b.len() == 0 {
        assert(a + b =~= a);
    } else {
        assert((a + b).drop_last() =~= a + b.drop_last());
        lemma_depth_concat(a, b.drop_last());
    }
}

proof fn lemma_flat_depth(s: Seq<u8>)
    requires
        no_structure(s),
    ensures
        depth(s) == 0,
    decreases s.len(),
{
    if s.len() > 0 {
        lemma_flat_depth(s.drop_last());
    }
}

/// Bytes without `(`, `)` or `,` stay at depth zero.
pub proof fn lemma_plain_depth(s: Seq<u8>)
    requires
        no_structure(s),
    ensures
        forall|k: int| 0 <= k <= s.len() ==> depth(#[trigger] s.take(k)) == 0,
{
    assert forall|k: int| 0 <= k <= s.len() implies depth(#[trigger] s.take(k)) == 0 by {
        lemma_flat_depth(s.take(k));
    }
}

/// Non-empty bytes without `(`, `)` or `,` form a single item.
pub proof fn lemma_plain_atom(s: Seq<u8>)
    requires
        no_structure(s),
        s.len() > 0,
    ensures
        item_atom(s),
{
    lemma_plain_depth(s);
    assert(s.take(s.len() as int) =~= s);
}

/// Two balanced sequences in a row are balanced.
pub proof fn lemma_concat_balanced(a: Seq<u8>, b: Seq<u8>)
    requires
        balanced(a),
        balanced(b),
    ensures
        balanced(a + b),
{
    lemma_depth_concat(a, b);
    let s = a + b;
    assert forall|k: int| 0 <= k <= s.len() implies depth(#[trigger] s.take(k)) >= 0 by {
        if k <= a.len() {
            assert(s.take(k) =~= a.take(k));
        } else {
            assert(s.take(k) =~= a + b.take(k - a.len()));
            lemma_depth_concat(a, b.take(k - a.len()));
            assert(a.take(a.len() as int) =~= a);
        }
    }
}

/// A plain non-empty prefix followed by a balanced sequence in parentheses
/// is a single item.
pub proof fn lemma_wrapped_atom(p: Seq<u8>, j: Seq<u8>)
    requires
        no_structure(p),
        p.len() > 0,
        balanced(j),
    ensures
        item_atom(p + seq![40u8] + j + seq![41u8]),
{
    let s = p + seq![40u8] + j + seq![41u8];
    let n = p.len() as int;
    lemma_plain_depth(p);
    assert(p.take(n) =~= p);
    lemma_depth_concat(p, seq![40u8]);
    assert(depth(seq![40u8]) == 1) by {
        assert(seq![40u8].drop_last() =~= Seq::<u8>::empty());
        assert(depth(Seq::<u8>::empty()) == 0);
    }
    assert(depth(seq![41u8]) == -1) by {
        assert(seq![41u8].drop_last() =~= Seq::<u8>::empty());
        assert(depth(Seq::<u8>::empty()) == 0);
    }
    lemma_depth_concat(p + seq![40u8], j);
    lemma_depth_concat(p + seq![40u8] + j, seq![41u8]);
    assert forall|k: int| 0 <= k <= s.len() implies depth(#[trigger] s.take(k)) >= 0 && (n < k < s.len() ==> depth(
        s.take(k),
    ) >= 1) by {
        if k <= n {
            assert(s.take(k) =~= p.take(k));
        } else if k < s.len() {
            assert(s.take(k) =~= (p + seq![40u8]) + j.take(k - n - 1));
            lemma_depth_concat(p + seq![40u8], j.take(k - n - 1));
        } else {
            assert(s.take(k) =~= s);
        }
    }
    assert forall|k: int| 0 <= k < s.len() && depth(#[trigger] s.take(k)) == 0 implies s[k] != 44 && s[k] != 41 by {
        if k < n {
            assert(s[k] == p[k]);
        } else if k == n {
            assert(s[k] == 40);
        } else {
            assert(depth(s.take(k)) >= 1);
        }
    }
}

/// Two items, each followed by nothing or by `,` and more, at the start of
/// the same bytes are the same item.
pub proof fn lemma_atom_prefix(x: Seq<u8>, y: Seq<u8>, r1: Seq<u8>, r2: Seq<u8>)
    requires
        item_atom(x),
        item_atom(y),
        x + r1 == y + r2,
        r1.len() == 0 || r1[0] == 44,
        r2.len() == 0 || r2[0] == 44,
    ensures
        x == y,
        r1 == r2,
{
    let s = x + r1;
    if x.len() < y.len() {
        let k = x.len() as int;
        assert(y.take(k) =~= s.take(k));
        assert(s.take(k) =~= x);
        assert(x.take(x.len() as int) =~= x);
        assert(y[k] == s[k]);
        assert(s[k] == r1[0]);
    } else if y.len() < x.len() {
        let k = y.len() as int;
        assert(x.take(k) =~= s.take(k));
        assert(s.take(k) =~= (y + r2).take(k));
        assert((y + r2).take(k) =~= y);
        assert(y.take(y.len() as int) =~= y);
        assert(x[k] == s[k]);
        assert(s[k] == (y + r2)[k]);
        assert((y + r2)[k] == r2[0]);
    }
    assert(x =~= s.take(x.len() as int));
    assert(y =~= (y + r2).take(y.len() as int));
    assert(r1 =~= s.skip(x.len() as int));
    assert(r2 =~= (y + r2).skip(y.len() as int));
}

/// The joined IDs read from the front: the first child's ID, then `,` and
/// the rest.
pub proof fn lemma_join_front<ID: NodeId>(c: Seq<Node<ID>>)
    requires
        c.len() >= 1,
    ensures
        join_canonical(c) == node_canonical(c[0]) + (if c.len() >= 2 {
            seq![44u8] + join_canonical(c.drop_first())
        } else {
            seq![]
        }),
    decreases c.len(),
{
    if c.len() == 1 {
        assert(join_canonical(c) =~= node_canonical(c[0]) + Seq::<u8>::empty());
    } else {
        let dl = c.drop_last();
        let rest = c.drop_first();
        assert(dl[0] == c[0]);
        assert(rest.last() == c.last());
        if c.len() == 2 {
            assert(join_canonical(dl) == node_canonical(c[0]));
            assert(rest.len() == 1);
            assert(join_canonical(rest) == node_canonical(rest[0]));
            assert(rest[0] == c.last());
        } else {
            lemma_join_front(dl);
            assert(dl.drop_first() =~= rest.drop_last());
            assert(join_canonical(rest) == join_canonical(rest.drop_last()) + seq![44u8] + node_canonical(
                rest.last(),
            ));
        }
        assert(join_canonical(c) =~= node_canonical(c[0]) + (seq![44u8] + join_canonical(rest)));
    }
}

/// Joined items are balanced.
pub proof fn lemma_join_balanced<ID: NodeId>(c: Seq<Node<ID>>)
    requires
        items_atoms(c),
    ensures
        balanced(join_canonical(c)),
    decreases c.len(),
{
    if c.len() == 0 {
        assert(join_canonical(c).take(0) =~= Seq::<u8>::empty());
    } else if c.len() == 1 {
        assert(item_atom(node_canonical(c[0])));
    } else {
        let dl = c.drop_last();
        assert forall|i: int| 0 <= i < dl.len() implies item_atom(node_canonical(#[trigger] dl[i])) by {
            assert(dl[i] == c[i]);
        }
        lemma_join_balanced(dl);
        assert(balanced(seq![44u8])) by {
            assert(seq![44u8].drop_last() =~= Seq::<u8>::empty());
            assert(depth(Seq::<u8>::empty()) == 0);
            assert(seq![44u8].take(1) =~= seq![44u8]);
            assert(seq![44u8].take(0) =~= Seq::<u8>::empty());
            assert forall|k: int| 0 <= k <= 1 implies depth(#[trigger] seq![44u8].take(k)) >= 0 by {
                if k == 0 {
                    assert(seq![44u8].take(k) =~= Seq::<u8>::empty());
                }
            }
        }
        lemma_concat_balanced(join_canonical(dl), seq![44u8]);
        let last = c[c.len() - 1];
        assert(item_atom(node_canonical(last)));
        assert(balanced(node_canonical(last)));
        assert(join_canonical(c) == join_canonical(dl) + seq![44u8] + node_canonical(last));
        lemma_concat_balanced(join_canonical(dl) + seq![44u8], node_canonical(last));
    }
}

/// The joined IDs of children whose IDs are single items give the children's
/// IDs back, one by one.
pub proof fn lemma_join_unique<ID: NodeId>(c1: Seq<Node<ID>>, c2: Seq<Node<ID>>)
    requires
        items_atoms(c1),
        items_atoms(c2),
        join_canonical(c1) == join_canonical(c2),
    ensures
        c1.len() == c2.len(),
        forall|i: int| 0 <= i < c1.len() ==> node_canonical(#[trigger] c1[i]) == node_canonical(c2[i]),
    decreases c1.len(),
{
    if c1.len() == 0 || c2.len() == 0 {
        if c1.len() > 0 {
            lemma_join_front(c1);
            assert(item_atom(node_canonical(c1[0])));
        }
        if c2.len() > 0 {
            lemma_join_front(c2);
            assert(item_atom(node_canonical(c2[0])));
        }
    } else {
        lemma_join_front(c1);
        lemma_join_front(c2);
        let r1 = if c1.len() >= 2 {
            seq![44u8] + join_canonical(c1.drop_first())
        } else {
            Seq::<u8>::empty()
        };
        let r2 = if c2.len() >= 2 {
            seq![44u8] + join_canonical(c2.drop_first())
        } else {
            Seq::<u8>::empty()
        };
        assert(item_atom(node_canonical(c1[0])));
        assert(item_atom(node_canonical(c2[0])));
        lemma_atom_prefix(node_canonical(c1[0]), node_canonical(c2[0]), r1, r2);
        if c1.len() >= 2 && c2.len() >= 2 {
            let t1 = c1.drop_first();
            let t2 = c2.drop_first();
            assert(join_canonical(t1) =~= r1.drop_first());
            assert(join_canonical(t2) =~= r2.drop_first());
            assert forall|i: int| 0 <= i < t1.len() implies item_atom(node_canonical(#[trigger] t1[i])) by {
                assert(t1[i] == c1[i + 1]);
            }
            assert forall|i: int| 0 <= i < t2.len() implies item_atom(node_canonical(#[trigger] t2[i])) by {
                assert(t2[i] == c2[i + 1]);
            }
            lemma_join_unique(t1, t2);
            assert forall|i: int| 0 <= i < c1.len() implies node_canonical(#[trigger] c1[i]) == node_canonical(c2[i]) by {
                if i > 0 {
                    assert(t1[i - 1] == c1[i] && t2[i - 1] == c2[i]);
                }
            }
        } else if c1.len() >= 2 {
            assert(r1.len() > 0);
        } else if c2.len() >= 2 {
            assert(r2.len() > 0);
        }
    }
}

/// Escaped bytes hold no `(`, `)` or `,`.
pub proof fn lemma_escape_plain(s: Seq<u8>)
    ensures
        no_structure(escape(s)),
    decreases s.len(),
{
    if s.len() > 0 {
        lemma_escape_plain(s.drop_last());
        let e = escape(s.drop_last());
        let b = escape_byte(s.last());
        assert forall|i: int| 0 <= i < escape(s).len() implies escape(s)[i] != 40 && escape(s)[i] != 41
            && escape(s)[i] != 44 by {
            if i >= e.len() {
                assert(escape(s)[i] == b[i - e.len()]);
            } else {
                assert(escape(s)[i] == e[i]);
            }
        }
    }
}

/// Lower-case hex digits hold no `(`, `)` or `,`.
pub proof fn lemma_hex_plain(s: Seq<u8>)
    ensures
        no_structure(hex_lower(s)),
    decreases s.len(),
{
    if s.len() > 0 {
        lemma_hex_plain(s.drop_last());
        let e = hex_lower(s.drop_last());
        assert forall|i: int| 0 <= i < hex_lower(s).len() implies hex_lower(s)[i] != 40 && hex_lower(s)[i] != 41
            && hex_lower(s)[i] != 44 by {
            if i >= e.len() {
                assert(s.last() as nat / 16 < 16);
                assert(s.last() as nat % 16 < 16);
            } else {
                assert(hex_lower(s)[i] == e[i]);
            }
        }
    }
}

/// Decimal digits are the bytes `0` to `9`.
pub proof fn lemma_decimal_digits(n: nat)
    ensures
        forall|i: int| 0 <= i < decimal(n).len() ==> 48 <= #[trigger] decimal(n)[i] <= 57,
    decreases n,
{
    if n >= 10 {
        lemma_decimal_digits(n / 10);
        let d = decimal(n / 10);
        assert forall|i: int| 0 <= i < decimal(n).len() implies 48 <= #[trigger] decimal(n)[i] <= 57 by {
            if i < d.len() {
                assert(decimal(n)[i] == d[i]);
            }
        }
    }
    lemma_decimal_ascii(n);
}

/// Decimal digits before a byte that is not a digit give the number and
/// the rest back.
pub proof fn lemma_decimal_then(m: nat, n: nat, sep: u8, x: Seq<u8>, y: Seq<u8>)
    requires
        !(48 <= sep <= 57),
        decimal(m) + seq![sep] + x == decimal(n) + seq![sep] + y,
    ensures
        m == n,
        x == y,
{
    let a = decimal(m);
    let b = decimal(n);
    let s = a + seq![sep] + x;
    lemma_decimal_digits(m);
    lemma_decimal_digits(n);
    if a.len() < b.len() {
        assert(s[a.len() as int] == sep);
        assert((b + seq![sep] + y)[a.len() as int] == b[a.len() as int]);
    } else if b.len() < a.len() {
        assert((b + seq![sep] + y)[b.len() as int] == sep);
        assert(s[b.len() as int] == a[b.len() as int]);
    }
    assert(a =~= s.take(a.len() as int));
    assert(b =~= (b + seq![sep] + y).take(b.len() as int));
    crate::encoding::lemma_decimal_injective(m, n);
    assert(x =~= s.skip(a.len() as int + 1));
    assert(y =~= (b + seq![sep] + y).skip(b.len() as int + 1));
}

/// Bytes without `(`, `)` or `,`, one after another, have none either.
pub proof fn lemma_concat_plain(a: Seq<u8>, b: Seq<u8>)
    requires
        no_structure(a),
        no_structure(b),
    ensures
        no_structure(a + b),
{
    assert forall|i: int| 0 <= i < (a + b).len() implies (a + b)[i] != 40 && (a + b)[i] != 41 && (a + b)[i] != 44 by {
        if i >= a.len() {
            assert((a + b)[i] == b[i - a.len()]);
        } else {
            assert((a + b)[i] == a[i]);
        }
    }
}

/// Decimal digits hold no `(`, `)` or `,`.
pub proof fn lemma_decimal_plain_bytes(n: nat)
    ensures
        no_structure(decimal(n)),
{
    lemma_decimal_digits(n);
}

/// The canonical ID of a leaf is a single item.
pub proof fn lemma_id_node_atom<ID: NodeId>(n: Node<ID>)
    requires
        n is Id,
    ensures
        item_atom(node_canonical(n)),
{
    let raw = ID::canonical_of(n->Id_0@);
    let e = embed_id(raw);
    if raw.len() > 64 {
        lemma_decimal_plain_bytes(1);
        lemma_hex_plain(sha256(raw));
        lemma_concat_plain(tag_hash(), decimal(1));
        lemma_concat_plain(tag_hash() + decimal(1), seq![58u8]);
        lemma_concat_plain(tag_hash() + decimal(1) + seq![58u8], hex_lower(sha256(raw)));
    } else {
        lemma_escape_plain(raw);
    }
    lemma_concat_plain(tag_id(), e);
    assert(node_canonical(n) == tag_id() + e);
    lemma_plain_atom(tag_id() + e);
}

/// The canonical ID of a subtree whose own ID is its canonical form over
/// children whose IDs are single items is a single item.
pub proof fn lemma_tree_node_atom<ID: NodeId>(t: QuorumTree<ID>)
    requires
        t.canonical_spec() == tree_canonical(t.quorum_size_spec(), t.children_spec()),
        items_atoms(t.children_spec()),
    ensures
        item_atom(node_canonical(Node::Subtree(t))),
{
    let ch = t.children_spec();
    let body = tree_body(ch);
    let p = tag_subtree() + decimal(t.quorum_size_spec() as nat) + seq![47u8];
    lemma_decimal_plain_bytes(t.quorum_size_spec() as nat);
    lemma_concat_plain(tag_subtree(), decimal(t.quorum_size_spec() as nat));
    lemma_concat_plain(tag_subtree() + decimal(t.quorum_size_spec() as nat), seq![47u8]);
    if body.len() > 64 {
        let h = tag_hash() + decimal(ch.len()) + seq![58u8] + hex_lower(sha256(body));
        lemma_decimal_plain_bytes(ch.len());
        lemma_hex_plain(sha256(body));
        lemma_concat_plain(tag_hash(), decimal(ch.len()));
        lemma_concat_plain(tag_hash() + decimal(ch.len()), seq![58u8]);
        lemma_concat_plain(tag_hash() + decimal(ch.len()) + seq![58u8], hex_lower(sha256(body)));
        lemma_concat_plain(p, h);
        assert(node_canonical(Node::Subtree(t)) =~= p + h);
        lemma_plain_atom(p + h);
    } else {
        lemma_join_balanced(ch);
        lemma_wrapped_atom(p, join_canonical(ch));
        assert(node_canonical(Node::Subtree(t)) =~= p + seq![40u8] + join_canonical(ch) + seq![41u8]);
    }
}

} // verus!
