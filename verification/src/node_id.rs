//! Node IDs: the types a quorum tree can hold as leaves.

use vstd::prelude::*;
use crate::encoding::{decimal, lemma_decimal_injective, push_all, push_decimal};
use vstd::utf8::{encode_utf8, encode_utf8_decode_utf8};
use crate::order::{lemma_lex_transitive, lemma_lex_trichotomy, lex_compare, lex_lt};

verus! {

/// A node ID: a value with canonical bytes and a total order.
///
/// IDs are compared by their view. Two IDs have the same canonical bytes
/// exactly when they are the same ID, and the order is a strict total order
/// on views.
pub trait NodeId: View + Sized {
    /// The canonical bytes of the ID with view `v`.
    spec fn canonical_of(v: Self::V) -> Seq<u8>;

    /// The strict order of IDs.
    spec fn id_lt(a: Self::V, b: Self::V) -> bool;

    /// The same canonical bytes mean the same ID.
    proof fn lemma_canonical_injective(a: Self::V, b: Self::V)
        requires
            Self::canonical_of(a) == Self::canonical_of(b),
        ensures
            a == b,
    ;

    /// Of two IDs, exactly one is smaller, or they are the same.
    proof fn lemma_id_order(a: Self::V, b: Self::V)
        ensures
            Self::id_lt(a, b) || a == b || Self::id_lt(b, a),
            !(Self::id_lt(a, b) && Self::id_lt(b, a)),
            !Self::id_lt(a, a),
    ;

    /// The order is transitive.
    proof fn lemma_id_transitive(a: Self::V, b: Self::V, c: Self::V)
        requires
            Self::id_lt(a, b),
            Self::id_lt(b, c),
        ensures
            Self::id_lt(a, c),
    ;

    /// Returns the canonical bytes.
    fn canonical_bytes(&self) -> (r: Vec<u8>)
        ensures
            r@ == Self::canonical_of(self@),
    ;

    /// Negative, zero or positive as `self` is smaller than, the same as or
    /// greater than `other`.
    fn compare_id(&self, other: &Self) -> (r: i8)
        ensures
            r < 0 <==> Self::id_lt(self@, other@),
            r == 0 <==> self@ == other@,
            r > 0 <==> Self::id_lt(other@, self@),
    ;

    /// A copy of the ID.
    fn copy_id(&self) -> (r: Self)
        ensures
            r@ == self@,
    ;
}

/// Numeric IDs, written in decimal and ordered by value.
impl NodeId for u64 {
    open spec fn canonical_of(v: u64) -> Seq<u8> {
        decimal(v as nat)
    }

    open spec fn id_lt(a: u64, b: u64) -> bool {
        a < b
    }

    proof fn lemma_canonical_injective(a: u64, b: u64) {
        lemma_decimal_injective(a as nat, b as nat);
    }

    proof fn lemma_id_order(a: u64, b: u64) {
    }

    proof fn lemma_id_transitive(a: u64, b: u64, c: u64) {
    }

    fn canonical_bytes(&self) -> (r: Vec<u8>) {
        let mut out: Vec<u8> = Vec::new();
        push_decimal(&mut out, *self);
        assert(out@ =~= decimal(*self as nat));
        out
    }

    fn compare_id(&self, other: &Self) -> (r: i8) {
        if *self < *other {
            -1
        } else if *self == *other {
            0
        } else {
            1
        }
    }

    fn copy_id(&self) -> (r: Self) {
        *self
    }
}

/// Byte-string IDs, such as user names: the bytes themselves, ordered
/// lexicographically.
impl NodeId for Vec<u8> {
    open spec fn canonical_of(v: Seq<u8>) -> Seq<u8> {
        v
    }

    open spec fn id_lt(a: Seq<u8>, b: Seq<u8>) -> bool {
        lex_lt(a, b)
    }

    proof fn lemma_canonical_injective(a: Seq<u8>, b: Seq<u8>) {
    }

    proof fn lemma_id_order(a: Seq<u8>, b: Seq<u8>) {
        lemma_lex_trichotomy(a, b);
        lemma_lex_trichotomy(a, a);
    }

    proof fn lemma_id_transitive(a: Seq<u8>, b: Seq<u8>, c: Seq<u8>) {
        lemma_lex_transitive(a, b, c);
    }

    fn canonical_bytes(&self) -> (r: Vec<u8>) {
        self.copy_id()
    }

    fn compare_id(&self, other: &Self) -> (r: i8) {
        lex_compare(self.as_slice(), other.as_slice())
    }

    fn copy_id(&self) -> (r: Self) {
        let mut out: Vec<u8> = Vec::new();
        push_all(&mut out, self.as_slice());
        assert(out@ =~= self@);
        out
    }
}

/// Text IDs, such as user names: their UTF-8 bytes, ordered
/// lexicographically by those bytes.
impl NodeId for String {
    open spec fn canonical_of(v: Seq<char>) -> Seq<u8> {
        encode_utf8(v)
    }

    open spec fn id_lt(a: Seq<char>, b: Seq<char>) -> bool {
        lex_lt(encode_utf8(a), encode_utf8(b))
    }

    proof fn lemma_canonical_injective(a: Seq<char>, b: Seq<char>) {
        encode_utf8_decode_utf8(a);
        encode_utf8_decode_utf8(b);
    }

    proof fn lemma_id_order(a: Seq<char>, b: Seq<char>) {
        lemma_lex_trichotomy(encode_utf8(a), encode_utf8(b));
        lemma_lex_trichotomy(encode_utf8(a), encode_utf8(a));
        if encode_utf8(a) == encode_utf8(b) {
            Self::lemma_canonical_injective(a, b);
        }
    }

    proof fn lemma_id_transitive(a: Seq<char>, b: Seq<char>, c: Seq<char>) {
        lemma_lex_transitive(encode_utf8(a), encode_utf8(b), encode_utf8(c));
    }

    fn canonical_bytes(&self) -> (r: Vec<u8>) {
        let bytes = self.as_str().as_bytes();
        let mut out: Vec<u8> = Vec::new();
        push_all(&mut out, bytes);
        assert(out@ =~= bytes@);
        out
    }

    fn compare_id(&self, other: &Self) -> (r: i8) {
        let a = self.as_str().as_bytes();
        let b = other.as_str().as_bytes();
        let r = lex_compare(a, b);
        proof {
            if a@ == b@ {
                Self::lemma_canonical_injective(self@, other@);
            }
        }
        r
    }

    fn copy_id(&self) -> (r: Self) {
        self.as_str().to_owned()
    }
}

/// The views of a sequence of values.
pub open spec fn views<T: View>(s: Seq<T>) -> Seq<T::V> {
    s.map_values(|x: T| x@)
}

/// The set of views of a sequence of values.
pub open spec fn view_set<T: View>(s: Seq<T>) -> Set<T::V> {
    views(s).to_set()
}

/// The views are in strictly increasing ID order; hence no ID occurs twice.
pub open spec fn ids_sorted<ID: NodeId>(s: Seq<ID>) -> bool {
    forall|i: int, j: int| 0 <= i < j < s.len() ==> ID::id_lt(#[trigger] s[i]@, #[trigger] s[j]@)
}

/// Views in strictly increasing ID order.
pub open spec fn views_sorted<ID: NodeId>(s: Seq<ID::V>) -> bool {
    forall|i: int, j: int| 0 <= i < j < s.len() ==> ID::id_lt(#[trigger] s[i], #[trigger] s[j])
}

/// Appending a value adds its view to the view set.
pub proof fn lemma_view_set_push<T: View>(s: Seq<T>, x: T)
    ensures
        views(s.push(x)) == views(s).push(x@),
        view_set(s.push(x)) == view_set(s).insert(x@),
{
    assert(views(s.push(x)) =~= views(s).push(x@));
    views(s).lemma_push_to_set_commute(x@);
}

/// A value of a sequence has its view in the view set.
pub proof fn lemma_view_set_index<T: View>(s: Seq<T>, k: int)
    requires
        0 <= k < s.len(),
    ensures
        view_set(s).contains(s[k]@),
{
    assert(views(s)[k] == s[k]@);
}

/// A view in the view set is the view of some value of the sequence.
pub proof fn lemma_view_set_member<T: View>(s: Seq<T>, y: T::V) -> (k: int)
    requires
        view_set(s).contains(y),
    ensures
        0 <= k < s.len(),
        s[k]@ == y,
{
    let k = choose|k: int| 0 <= k < views(s).len() && views(s)[k] == y;
    k
}

/// IDs in ID order have distinct views.
pub proof fn lemma_ids_sorted_no_duplicates<ID: NodeId>(s: Seq<ID>)
    requires
        ids_sorted(s),
    ensures
        views(s).no_duplicates(),
{
    assert forall|i: int, j: int| 0 <= i < j < views(s).len() implies views(s)[i] != views(s)[j] by {
        assert(ID::id_lt(s[i]@, s[j]@));
        ID::lemma_id_order(s[i]@, s[j]@);
    }
}

/// Whether an ID with the view of `x` occurs in `s`.
pub fn contains_id<ID: NodeId>(s: &[ID], x: &ID) -> (r: bool)
    ensures
        r == view_set(s@).contains(x@),
{
    let mut i: usize = 0;
    while i < s.len()
        invariant
            0 <= i <= s.len(),
            forall|k: int| 0 <= k < i ==> #[trigger] s@[k]@ != x@,
        decreases s.len() - i,
    {
        if s[i].compare_id(x) == 0 {
            proof {
                assert(views(s@)[i as int] == x@);
            }
            return true;
        }
        i = i + 1;
    }
    proof {
        if view_set(s@).contains(x@) {
            let k = choose|k: int| 0 <= k < views(s@).len() && views(s@)[k] == x@;
            assert(s@[k]@ == x@);
        }
    }
    false
}

/// Inserts a copy of `x` at its place in a vector in ID order, unless the ID
/// is already there.
pub fn insert_id_sorted<ID: NodeId>(v: &mut Vec<ID>, x: &ID)
    requires
        ids_sorted(old(v)@),
    ensures
        ids_sorted(final(v)@),
        view_set(final(v)@) == view_set(old(v)@).insert(x@),
{
    let mut j: usize = 0;
    while j < v.len() && v[j].compare_id(x) < 0
        invariant
            0 <= j <= v.len(),
            v@ == old(v)@,
            forall|k: int| 0 <= k < j ==> ID::id_lt(#[trigger] v@[k]@, x@),
        decreases v.len() - j,
    {
        j = j + 1;
    }
    if j < v.len() && v[j].compare_id(x) == 0 {
        proof {
            assert(views(v@)[j as int] == x@);
            assert(view_set(v@) =~= view_set(old(v)@).insert(x@));
        }
        return;
    }
    let ghost before = v@;
    proof {
        if j < v.len() {
            ID::lemma_id_order(before[j as int]@, x@);
        }
    }
    let c = x.copy_id();
    v.insert(j, c);
    proof {
        assert forall|a: int, b: int| 0 <= a < b < v@.len() implies ID::id_lt(#[trigger] v@[a]@, #[trigger] v@[b]@) by {
            if b < j {
                assert(v@[a] == before[a] && v@[b] == before[b]);
            } else if b == j {
                assert(v@[a] == before[a]);
            } else if a < j {
                assert(v@[a] == before[a] && v@[b] == before[b - 1]);
                if b - 1 > j {
                    ID::lemma_id_transitive(x@, before[j as int]@, before[b - 1]@);
                }
                ID::lemma_id_transitive(before[a]@, x@, before[b - 1]@);
            } else if a == j {
                assert(v@[b] == before[b - 1]);
                if b - 1 > j {
                    ID::lemma_id_transitive(x@, before[j as int]@, before[b - 1]@);
                }
            } else {
                assert(v@[a] == before[a - 1] && v@[b] == before[b - 1]);
            }
        }
        assert(views(v@) =~= views(before).insert(j as int, x@));
        assert forall|y: ID::V| view_set(v@).contains(y) <==> view_set(before).insert(x@).contains(y) by {
            let ev = views(v@);
            let eb = views(before);
            if ev.to_set().contains(y) {
                let k = choose|k: int| 0 <= k < ev.len() && ev[k] == y;
                if k < j {
                    assert(eb[k] == y);
                } else if k > j {
                    assert(eb[k - 1] == y);
                }
            }
            if eb.to_set().contains(y) {
                let k = choose|k: int| 0 <= k < eb.len() && eb[k] == y;
                if k < j {
                    assert(ev[k] == y);
                } else {
                    assert(ev[k + 1] == y);
                }
            }
            if y == x@ {
                assert(ev[j as int] == y);
            }
        }
        assert(view_set(v@) =~= view_set(before).insert(x@));
    }
}

} // verus!
