//! Quorum intersection between quorum sets, checked exactly.

use vstd::prelude::*;
use crate::node_id::{NodeId, ids_sorted, insert_id_sorted, view_set, views};
use crate::quorum_set::QuorumSet;

verus! {

/// The view of the IDs of a quorum set.
pub type IdView<Q> = <<Q as QuorumSet>::Id as View>::V;

/// Two sets of IDs share an ID.
pub open spec fn sets_meet<V>(s1: Set<V>, s2: Set<V>) -> bool {
    exists|x: V| s1.contains(x) && s2.contains(x)
}

/// Quorum intersection, `a ~ b`: every quorum of `a` intersects every quorum
/// of `b`.
pub open spec fn quorum_intersection<A: QuorumSet, B: QuorumSet<Id = A::Id>>(a: &A, b: &B) -> bool {
    forall|s1: Set<IdView<A>>, s2: Set<IdView<A>>|
        #![trigger a.accepts(s1), b.accepts(s2)]
        a.accepts(s1) && b.accepts(s2) ==> sets_meet(s1, s2)
}

/// Quorum intersection is symmetric: `a ~ b` exactly when `b ~ a`.
pub proof fn lemma_quorum_intersection_symmetric<A: QuorumSet, B: QuorumSet<Id = A::Id>>(a: &A, b: &B)
    ensures
        quorum_intersection(a, b) == quorum_intersection(b, a),
{
    if quorum_intersection(a, b) {
        assert forall|s2: Set<IdView<A>>, s1: Set<IdView<A>>| b.accepts(s2) && a.accepts(s1) implies sets_meet(s2, s1) by {
            assert(sets_meet(s1, s2));
            let x = choose|x: IdView<A>| s1.contains(x) && s2.contains(x);
            assert(s2.contains(x) && s1.contains(x));
        }
    }
    if quorum_intersection(b, a) {
        assert forall|s1: Set<IdView<A>>, s2: Set<IdView<A>>| a.accepts(s1) && b.accepts(s2) implies sets_meet(s1, s2) by {
            assert(sets_meet(s2, s1));
            let x = choose|x: IdView<A>| s2.contains(x) && s1.contains(x);
            assert(s1.contains(x) && s2.contains(x));
        }
    }
}

/// Some split of `u` into `x` and `u \ x` has `x` accepted by `a` and the
/// rest accepted by `b`.
pub open spec fn disjoint_split_exists<A: QuorumSet, B: QuorumSet<Id = A::Id>>(a: &A, b: &B, u: Set<IdView<A>>) -> bool {
    exists|x: Set<IdView<A>>| #![trigger a.accepts(x)] x.subset_of(u) && a.accepts(x) && b.accepts(u.difference(x))
}

/// With `u` holding every voter of `a` and `b`, quorum intersection fails
/// exactly when some split of `u` is accepted on both sides.
pub proof fn lemma_intersection_by_split<A: QuorumSet, B: QuorumSet<Id = A::Id>>(a: &A, b: &B, u: Set<IdView<A>>)
    requires
        a.voters().subset_of(u),
        b.voters().subset_of(u),
    ensures
        quorum_intersection(a, b) == !disjoint_split_exists(a, b, u),
{
    if disjoint_split_exists(a, b, u) {
        let x = choose|x: Set<IdView<A>>| #![trigger a.accepts(x)] x.subset_of(u) && a.accepts(x) && b.accepts(u.difference(x));
        assert(!sets_meet(x, u.difference(x)));
        assert(!quorum_intersection(a, b));
    }
    if !quorum_intersection(a, b) {
        let (s1, s2) = choose|s1: Set<IdView<A>>, s2: Set<IdView<A>>|
            #![trigger a.accepts(s1), b.accepts(s2)]
            a.accepts(s1) && b.accepts(s2) && !sets_meet(s1, s2);
        let x = s1.intersect(a.voters());
        a.lemma_closed_over_voters(s1);
        b.lemma_closed_over_voters(s2);
        let y = s2.intersect(b.voters());
        assert(y.subset_of(u.difference(x))) by {
            assert forall|v: IdView<A>| y.contains(v) implies u.difference(x).contains(v) by {
                if x.contains(v) {
                    assert(s1.contains(v) && s2.contains(v));
                }
            }
        }
        b.lemma_upward_closed(y, u.difference(x));
        assert(x.subset_of(u));
        assert(disjoint_split_exists(a, b, u));
    }
}

/// The IDs of `u` from index `i` on.
pub open spec fn rest_of<V>(u: Seq<V>, i: int) -> Set<V> {
    u.subrange(i, u.len() as int).to_set()
}

/// Some split of the IDs from index `i` on, added to `sel` and `comp`, is
/// accepted on both sides.
pub open spec fn split_from<A: QuorumSet, B: QuorumSet<Id = A::Id>>(
    a: &A,
    b: &B,
    u: Seq<IdView<A>>,
    i: int,
    sel: Set<IdView<A>>,
    comp: Set<IdView<A>>,
) -> bool {
    exists|x: Set<IdView<A>>|
        #![trigger a.accepts(sel.union(x))]
        x.subset_of(rest_of(u, i)) && a.accepts(sel.union(x)) && b.accepts(
            comp.union(rest_of(u, i).difference(x)),
        )
}

proof fn lemma_rest_step<V>(u: Seq<V>, i: int)
    requires
        0 <= i < u.len(),
        u.no_duplicates(),
    ensures
        rest_of(u, i) == rest_of(u, i + 1).insert(u[i]),
        !rest_of(u, i + 1).contains(u[i]),
{
    let s = u.subrange(i, u.len() as int);
    let t = u.subrange(i + 1, u.len() as int);
    assert(s.drop_first() =~= t);
    assert(s =~= seq![u[i]] + s.drop_first());
    assert forall|v: V| rest_of(u, i).contains(v) <==> rest_of(u, i + 1).insert(u[i]).contains(v) by {
        if rest_of(u, i).contains(v) {
            let k = choose|k: int| 0 <= k < s.len() && s[k] == v;
            if k > 0 {
                assert(t[k - 1] == v);
            }
        }
        if rest_of(u, i + 1).contains(v) {
            let k = choose|k: int| 0 <= k < t.len() && #[trigger] t[k] == v;
            assert(s[k + 1] == v);
        }
        if v == u[i] {
            assert(s[0] == v);
        }
    }
    assert(rest_of(u, i) =~= rest_of(u, i + 1).insert(u[i]));
    if rest_of(u, i + 1).contains(u[i]) {
        let k = choose|k: int| 0 <= k < t.len() && #[trigger] t[k] == u[i];
        assert(u[i + 1 + k] == u[i]);
    }
}

/// A copy of `v` with a copy of `x` pushed.
fn push_id<ID: NodeId>(v: &Vec<ID>, x: &ID) -> (r: Vec<ID>)
    ensures
        views(r@) == views(v@).push(x@),
        view_set(r@) == view_set(v@).insert(x@),
{
    let mut r: Vec<ID> = Vec::new();
    let mut i: usize = 0;
    while i < v.len()
        invariant
            0 <= i <= v@.len(),
            views(r@) == views(v@).take(i as int),
        decreases v@.len() - i,
    {
        let c = v[i].copy_id();
        let ghost before = r@;
        r.push(c);
        proof {
            assert(r@ == before.push(c));
            assert(views(r@) =~= views(before).push(c@));
            assert(views(v@).take(i + 1) =~= views(v@).take(i as int).push(v@[i as int]@));
        }
        i = i + 1;
    }
    assert(views(v@).take(v@.len() as int) =~= views(v@));
    let c = x.copy_id();
    let ghost before = r@;
    r.push(c);
    proof {
        assert(r@ == before.push(c));
        assert(views(r@) =~= views(before).push(c@));
        assert(views(r@) =~= views(v@).push(x@));
        views(v@).lemma_push_to_set_commute(x@);
    }
    r
}

/// Searches every split of `u[i..]` on top of `sel` and `comp` for one that
/// `a` and `b` both accept.
fn search_split<A: QuorumSet, B: QuorumSet<Id = A::Id>>(
    a: &A,
    b: &B,
    u: &Vec<A::Id>,
    i: usize,
    sel: Vec<A::Id>,
    comp: Vec<A::Id>,
) -> (found: bool)
    where A::Id: NodeId,
    requires
        views(u@).no_duplicates(),
        i <= u@.len(),
    ensures
        found == split_from(a, b, views(u@), i as int, view_set(sel@), view_set(comp@)),
    decreases u@.len() - i,
{
    let ghost uv = views(u@);
    let ghost s = view_set(sel@);
    let ghost c = view_set(comp@);
    if i == u.len() {
        let found = a.is_quorum(sel.as_slice()) && b.is_quorum(comp.as_slice());
        proof {
            assert(rest_of(uv, i as int) =~= Set::<IdView<A>>::empty());
            let e = Set::<IdView<A>>::empty();
            assert(s.union(e) =~= s);
            assert(c.union(rest_of(uv, i as int).difference(e)) =~= c);
            if split_from(a, b, uv, i as int, s, c) {
                let x = choose|x: Set<IdView<A>>|
                    #![trigger a.accepts(s.union(x))]
                    x.subset_of(rest_of(uv, i as int)) && a.accepts(s.union(x)) && b.accepts(
                        c.union(rest_of(uv, i as int).difference(x)),
                    );
                assert(x =~= e);
            }
        }
        return found;
    }
    let idr = &u[i];
    let ghost id = idr@;
    assert(uv[i as int] == id);
    let sel_with = push_id(&sel, idr);
    let comp_with = push_id(&comp, idr);
    let first = search_split(a, b, u, i + 1, sel_with, comp);
    proof {
        lemma_rest_step(uv, i as int);
    }
    let ghost r0 = rest_of(uv, i as int);
    let ghost r1 = rest_of(uv, i + 1);
    if first {
        proof {
            let x1 = choose|x: Set<IdView<A>>|
                #![trigger a.accepts(s.insert(id).union(x))]
                x.subset_of(r1) && a.accepts(s.insert(id).union(x)) && b.accepts(c.union(r1.difference(x)));
            let x = x1.insert(id);
            assert(s.union(x) =~= s.insert(id).union(x1));
            assert(r0.difference(x) =~= r1.difference(x1));
            assert(split_from(a, b, uv, i as int, s, c));
        }
        return true;
    }
    let second = search_split(a, b, u, i + 1, sel, comp_with);
    proof {
        if second {
            let x2 = choose|x: Set<IdView<A>>|
                #![trigger a.accepts(s.union(x))]
                x.subset_of(r1) && a.accepts(s.union(x)) && b.accepts(c.insert(id).union(r1.difference(x)));
            assert(c.union(r0.difference(x2)) =~= c.insert(id).union(r1.difference(x2)));
            assert(split_from(a, b, uv, i as int, s, c));
        }
        if split_from(a, b, uv, i as int, s, c) {
            let x = choose|x: Set<IdView<A>>|
                #![trigger a.accepts(s.union(x))]
                x.subset_of(r0) && a.accepts(s.union(x)) && b.accepts(c.union(r0.difference(x)));
            if x.contains(id) {
                let x1 = x.remove(id);
                assert(s.insert(id).union(x1) =~= s.union(x));
                assert(c.union(r1.difference(x1)) =~= c.union(r0.difference(x)));
                assert(split_from(a, b, uv, i + 1, s.insert(id), c));
            } else {
                assert(c.insert(id).union(r1.difference(x)) =~= c.union(r0.difference(x)));
                assert(split_from(a, b, uv, i + 1, s, c.insert(id)));
            }
        }
    }
    second
}

/// Exhaustively checks quorum intersection between two quorum sets.
///
/// Returns `true` iff every quorum of `a` intersects every quorum of `b`. It
/// tests every split of the combined voter IDs `U` into `S` and `U \ S`: a
/// disjoint quorum pair exists iff for some split `S` is a quorum of `a` and
/// `U \ S` a quorum of `b`. The check runs up to `2^n` quorum evaluations
/// for `n` distinct IDs and is meant for small configurations; it accepts at
/// most 63 distinct IDs.
pub fn verify_intersection<A: QuorumSet, B: QuorumSet<Id = A::Id>>(a: &A, b: &B) -> (r: bool)
    where A::Id: NodeId,
    requires
        a.voters().union(b.voters()).len() < 64,
    ensures
        r == quorum_intersection(a, b),
{
    let ids_a = a.ids();
    let ids_b = b.ids();
    let mut universe: Vec<A::Id> = Vec::new();
    let mut i: usize = 0;
    while i < ids_a.len()
        invariant
            0 <= i <= ids_a@.len(),
            ids_sorted(universe@),
            view_set(universe@) == view_set(ids_a@.take(i as int)),
        decreases ids_a@.len() - i,
    {
        insert_id_sorted(&mut universe, &ids_a[i]);
        proof {
            assert(views(ids_a@.take(i + 1)) =~= views(ids_a@.take(i as int)).push(ids_a@[i as int]@));
            views(ids_a@.take(i as int)).lemma_push_to_set_commute(ids_a@[i as int]@);
        }
        i = i + 1;
    }
    assert(ids_a@.take(ids_a@.len() as int) =~= ids_a@);
    let mut j: usize = 0;
    while j < ids_b.len()
        invariant
            0 <= j <= ids_b@.len(),
            ids_sorted(universe@),
            view_set(universe@) == a.voters().union(view_set(ids_b@.take(j as int))),
        decreases ids_b@.len() - j,
    {
        insert_id_sorted(&mut universe, &ids_b[j]);
        proof {
            assert(views(ids_b@.take(j + 1)) =~= views(ids_b@.take(j as int)).push(ids_b@[j as int]@));
            views(ids_b@.take(j as int)).lemma_push_to_set_commute(ids_b@[j as int]@);
        }
        j = j + 1;
        assert(view_set(universe@) =~= a.voters().union(view_set(ids_b@.take(j as int))));
    }
    assert(ids_b@.take(ids_b@.len() as int) =~= ids_b@);
    let ghost uv = views(universe@);
    let ghost u = uv.to_set();
    assert(u =~= a.voters().union(b.voters()));
    proof {
        assert forall|p: int, q: int| 0 <= p < q < uv.len() implies uv[p] != uv[q] by {
            assert(<A::Id as NodeId>::id_lt(universe@[p]@, universe@[q]@));
            <A::Id as NodeId>::lemma_id_order(universe@[p]@, universe@[q]@);
        }
    }
    let found = search_split(a, b, &universe, 0, Vec::new(), Vec::new());
    proof {
        let e = Set::<IdView<A>>::empty();
        assert(uv.subrange(0, uv.len() as int) =~= uv);
        assert(rest_of(uv, 0) == u);
        assert(view_set(Seq::<A::Id>::empty()) =~= e);
        lemma_intersection_by_split(a, b, u);
        if found {
            let x = choose|x: Set<IdView<A>>|
                #![trigger a.accepts(e.union(x))]
                x.subset_of(u) && a.accepts(e.union(x)) && b.accepts(e.union(u.difference(x)));
            assert(e.union(x) =~= x);
            assert(e.union(u.difference(x)) =~= u.difference(x));
            assert(disjoint_split_exists(a, b, u));
        }
        if disjoint_split_exists(a, b, u) {
            let x = choose|x: Set<IdView<A>>| #![trigger a.accepts(x)] x.subset_of(u) && a.accepts(x) && b.accepts(u.difference(x));
            assert(e.union(x) =~= x);
            assert(e.union(u.difference(x)) =~= u.difference(x));
            assert(split_from(a, b, uv, 0, e, e));
        }
    }
    !found
}

} // verus!
