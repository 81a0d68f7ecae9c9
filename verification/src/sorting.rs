//! Cells in order: by column, and within a column by row.

use crate::city::City;
use rayon::slice::ParallelSliceMut;
use vstd::prelude::*;

verus! {

/// Whether `a` comes no later than `b`: an earlier column, or the same
/// column and no later row.
pub open spec fn cell_le(a: (i32, i32), b: (i32, i32)) -> bool {
    a.0 < b.0 || (a.0 == b.0 && a.1 <= b.1)
}

/// Whether the cells of `s` stand in order.
pub open spec fn in_order(s: Seq<(i32, i32)>) -> bool {
    forall|i: int, j: int| 0 <= i <= j < s.len() ==> cell_le(#[trigger] s[i], #[trigger] s[j])
}

/// The cells of `s` put in order.
pub open spec fn sorted(s: Seq<(i32, i32)>) -> Seq<(i32, i32)> {
    choose|t: Seq<(i32, i32)>| in_order(t) && t.to_multiset() == s.to_multiset()
}

/// There is one way only to put cells in order: a sequence in order that
/// holds the cells of `s`, each as often as `s`, is `sorted(s)`.
pub proof fn lemma_sorted_is(s: Seq<(i32, i32)>, t: Seq<(i32, i32)>)
    requires
        in_order(t),
        t.to_multiset() == s.to_multiset(),
    ensures
        t == sorted(s),
{
    let leq = |a: (i32, i32), b: (i32, i32)| cell_le(a, b);
    let u = sorted(s);
    assert(in_order(u) && u.to_multiset() == s.to_multiset());
    assert(vstd::relations::total_ordering(leq)) by {
        assert(vstd::relations::reflexive(leq));
        assert(vstd::relations::antisymmetric(leq));
        assert(vstd::relations::transitive(leq));
        assert(vstd::relations::strongly_connected(leq));
    }
    assert(vstd::relations::sorted_by(t, leq));
    assert(vstd::relations::sorted_by(u, leq));
    vstd::seq_lib::lemma_sorted_unique(t, u, leq);
}

/// The cells of `s` put in order stand in order and are the cells of `s`,
/// each as often as in `s`.
pub proof fn lemma_sorted(s: Seq<(i32, i32)>)
    ensures
        in_order(sorted(s)),
        sorted(s).to_multiset() == s.to_multiset(),
        sorted(s).len() == s.len(),
        forall|x: (i32, i32)| sorted(s).contains(x) <==> s.contains(x),
{
    let leq = |a: (i32, i32), b: (i32, i32)| cell_le(a, b);
    assert(vstd::relations::total_ordering(leq)) by {
        assert(vstd::relations::reflexive(leq));
        assert(vstd::relations::antisymmetric(leq));
        assert(vstd::relations::transitive(leq));
        assert(vstd::relations::strongly_connected(leq));
    }
    s.lemma_sort_by_ensures(leq);
    let t = s.sort_by(leq);
    assert(in_order(t)) by {
        assert forall|i: int, j: int| 0 <= i <= j < t.len() implies cell_le(
            #[trigger] t[i],
            #[trigger] t[j],
        ) by {
            if i < j {
                assert(leq(t[i], t[j]));
            }
        }
    }
    assert(in_order(t) && t.to_multiset() == s.to_multiset());
    let u = sorted(s);
    u.to_multiset_ensures();
    s.to_multiset_ensures();
    assert forall|x: (i32, i32)| u.contains(x) <==> s.contains(x) by {
        assert(u.contains(x) <==> u.to_multiset().count(x) > 0);
        assert(s.contains(x) <==> s.to_multiset().count(x) > 0);
    }
}

/// The top left corners of `s`, in the order of `s`.
pub open spec fn anchors_of(s: Seq<crate::building::Building>) -> Seq<(i32, i32)> {
    Seq::new(s.len(), |i: int| s[i].anchor())
}

/// `ParallelSliceMut::par_sort` of rayon, on pairs of integers, which
/// compare by their first parts and then by their second: afterwards the
/// vector holds the same cells as before, each as often as before, and
/// they stand in order.
#[verifier::external_body]
pub(crate) fn sort_cells(v: &mut Vec<(i32, i32)>)
    ensures
        in_order(final(v)@),
        final(v)@.to_multiset() == old(v)@.to_multiset(),
{
    v.par_sort();
}

/// The top left corners of the buildings of the city, in order.
pub fn sorted_anchors(city: &City) -> (r: Vec<(i32, i32)>)
    ensures
        r@ == sorted(anchors_of(city.buildings@)),
        in_order(r@),
        r@.to_multiset() == anchors_of(city.buildings@).to_multiset(),
        r@.len() == city.buildings@.len(),
        forall|i: int| 0 <= i < r@.len() ==> city.has_anchor(#[trigger] r@[i]),
{
    let mut anchors: Vec<(i32, i32)> = Vec::new();
    let mut i: usize = 0;
    while i < city.buildings.len()
        invariant
            i <= city.buildings@.len(),
            anchors@ == anchors_of(city.buildings@.take(i as int)),
        decreases city.buildings@.len() - i,
    {
        let b = &city.buildings[i];
        anchors.push((b.x, b.y));
        assert(anchors@ =~= anchors_of(city.buildings@.take(i + 1)));
        i += 1;
    }
    assert(city.buildings@.take(i as int) =~= city.buildings@);
    let ghost unsorted = anchors@;
    sort_cells(&mut anchors);
    proof {
        lemma_sorted_is(unsorted, anchors@);
        unsorted.to_multiset_ensures();
        anchors@.to_multiset_ensures();
        assert forall|i: int| 0 <= i < anchors@.len() implies city.has_anchor(#[trigger] anchors@[i]) by {
            let a = anchors@[i];
            assert(anchors@.contains(a));
            assert(anchors@.to_multiset().count(a) > 0);
            assert(unsorted.contains(a));
            let j = choose|j: int| 0 <= j < unsorted.len() && unsorted[j] == a;
            assert(city.buildings@[j].anchor() == a);
        }
    }
    anchors
}

} // verus!
