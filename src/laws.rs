//! Laws of the selection algebra, stated over the sets of points that the
//! operations' contracts give.

use crate::raw_interval::{seq_contains, RawInterval};
use crate::order::ordered;
use crate::canonical::dense;
use crate::normalize::{NextLower, NextUpper};
use crate::selection::{inserted_all, lemma_canonical, resettled_run, Selection};
use crate::sweep::{lemma_sweep_empty_intersect, merged_run, Combine};
use crate::tine::{started, Tine};
use vstd::prelude::*;

verus! {

/// Union and intersection of selections are commutative and associative.
pub proof fn lemma_commutative_associative<T: Ord + Copy>(
    a: Selection<T>,
    b: Selection<T>,
    c: Selection<T>,
)
    ensures
        a@.union(b@) == b@.union(a@),
        a@.intersect(b@) == b@.intersect(a@),
        a@.union(b@).union(c@) == a@.union(b@.union(c@)),
        a@.intersect(b@).intersect(c@) == a@.intersect(b@.intersect(c@)),
{
    assert(a@.union(b@) =~= b@.union(a@));
    assert(a@.intersect(b@) =~= b@.intersect(a@));
    assert(a@.union(b@).union(c@) =~= a@.union(b@.union(c@)));
    assert(a@.intersect(b@).intersect(c@) =~= a@.intersect(b@.intersect(c@)));
}

/// The complement of a union is the intersection of the complements, and
/// the complement of an intersection the union of the complements.
pub proof fn lemma_de_morgan<T: Ord + Copy>(a: Selection<T>, b: Selection<T>)
    ensures
        a@.union(b@).complement() == a@.complement().intersect(b@.complement()),
        a@.intersect(b@).complement() == a@.complement().union(b@.complement()),
{
    assert(a@.union(b@).complement() =~= a@.complement().intersect(b@.complement()));
    assert(a@.intersect(b@).complement() =~= a@.complement().union(b@.complement()));
}

/// Taking the complement twice gives the selection back.
pub proof fn lemma_complement_involution<T: Ord + Copy>(a: Selection<T>)
    ensures
        a@.complement().complement() == a@,
{
    assert(a@.complement().complement() =~= a@);
}

/// The difference of two selections is the first intersected with the
/// complement of the second.
pub proof fn lemma_difference<T: Ord + Copy>(a: Selection<T>, b: Selection<T>)
    ensures
        a@.difference(b@) == a@.intersect(b@.complement()),
{
    assert(a@.difference(b@) =~= a@.intersect(b@.complement()));
}

/// The empty selection is neutral for union and absorbing for
/// intersection; the full selection is absorbing for union and neutral for
/// intersection.
pub proof fn lemma_empty_full<T: Ord + Copy>(x: Selection<T>)
    ensures
        Set::<T>::empty().union(x@) == x@,
        Set::<T>::empty().intersect(x@) == Set::<T>::empty(),
        Set::<T>::full().union(x@) == Set::<T>::full(),
        Set::<T>::full().intersect(x@) == x@,
{
    assert(Set::<T>::empty().union(x@) =~= x@);
    assert(Set::<T>::empty().intersect(x@) =~= Set::<T>::empty());
    assert(Set::<T>::full().union(x@) =~= Set::<T>::full());
    assert(Set::<T>::full().intersect(x@) =~= x@);
}

/// Selections built from the same intervals, inserted in any order, hold
/// the same points.
pub proof fn lemma_insertion_order<T: Ord + Copy>(
    a: Selection<T>,
    b: Selection<T>,
    v: Seq<RawInterval<T>>,
    w: Seq<RawInterval<T>>,
)
    requires
        v.to_multiset() == w.to_multiset(),
        forall|p: T| #[trigger] a@.contains(p) == seq_contains(v, p),
        forall|p: T| #[trigger] b@.contains(p) == seq_contains(w, p),
    ensures
        a@ == b@,
{
    v.to_multiset_ensures();
    w.to_multiset_ensures();
    assert forall|p: T| #[trigger] a@.contains(p) == b@.contains(p) by {
        if seq_contains(v, p) {
            let i = choose|i: int| 0 <= i < v.len() && (#[trigger] v[i]).contains_spec(p);
            assert(v.contains(v[i]));
            assert(v.to_multiset().count(v[i]) > 0);
            assert(w.to_multiset().count(v[i]) > 0);
            assert(w.contains(v[i]));
            let j = choose|j: int| 0 <= j < w.len() && w[j] == v[i];
            assert(w[j].contains_spec(p));
        }
        if seq_contains(w, p) {
            let j = choose|j: int| 0 <= j < w.len() && (#[trigger] w[j]).contains_spec(p);
            assert(w.contains(w[j]));
            assert(w.to_multiset().count(w[j]) > 0);
            assert(v.to_multiset().count(w[j]) > 0);
            assert(v.contains(w[j]));
            let i = choose|i: int| 0 <= i < v.len() && v[i] == w[j];
            assert(v[i].contains_spec(p));
        }
    }
    assert(a@ =~= b@);
}

/// Over a dense order with no least or greatest point, union and
/// intersection are commutative and associative on the selections
/// themselves: the results are made of the same tines.
pub proof fn lemma_commutative_associative_tines<T: Ord + Copy>(
    a: Selection<T>,
    b: Selection<T>,
    c: Selection<T>,
    ab: Selection<T>,
    ba: Selection<T>,
    ab_c: Selection<T>,
    bc: Selection<T>,
    a_bc: Selection<T>,
)
    requires
        ordered::<T>(),
        dense::<T>(),
        ab.wf() && ba.wf() && ab_c.wf() && bc.wf() && a_bc.wf(),
        ab@ == a@.union(b@) || ab@ == a@.intersect(b@),
        ab@ == a@.union(b@) ==> ba@ == b@.union(a@) && ab_c@ == ab@.union(c@) && bc@ == b@.union(c@)
            && a_bc@ == a@.union(bc@),
        ab@ != a@.union(b@) ==> ba@ == b@.intersect(a@) && ab_c@ == ab@.intersect(c@) && bc@
            == b@.intersect(c@) && a_bc@ == a@.intersect(bc@),
    ensures
        ab.tines() == ba.tines(),
        ab_c.tines() == a_bc.tines(),
{
    lemma_commutative_associative(a, b, c);
    assert(ab@ == ba@);
    assert(ab_c@ == a_bc@);
    lemma_canonical(ab, ba);
    lemma_canonical(ab_c, a_bc);
}

/// Over a dense order with no least or greatest point, De Morgan's laws
/// hold of the selections themselves.
pub proof fn lemma_de_morgan_tines<T: Ord + Copy>(
    a: Selection<T>,
    b: Selection<T>,
    lhs: Selection<T>,
    rhs: Selection<T>,
)
    requires
        ordered::<T>(),
        dense::<T>(),
        lhs.wf(),
        rhs.wf(),
        (lhs@ == a@.union(b@).complement() && rhs@ == a@.complement().intersect(b@.complement())) || (
        lhs@ == a@.intersect(b@).complement() && rhs@ == a@.complement().union(b@.complement())),
    ensures
        lhs.tines() == rhs.tines(),
{
    lemma_de_morgan(a, b);
    lemma_canonical(lhs, rhs);
}

/// Over a dense order with no least or greatest point, the complement of
/// the complement is the selection itself.
pub proof fn lemma_complement_involution_tines<T: Ord + Copy>(a: Selection<T>, cc: Selection<T>)
    requires
        ordered::<T>(),
        dense::<T>(),
        a.wf(),
        cc.wf(),
        cc@ == a@.complement().complement(),
    ensures
        cc.tines() == a.tines(),
{
    lemma_complement_involution(a);
    lemma_canonical(cc, a);
}

/// Over a dense order with no least or greatest point, the difference is
/// the intersection with the complement, tine for tine.
pub proof fn lemma_difference_tines<T: Ord + Copy>(
    a: Selection<T>,
    b: Selection<T>,
    d: Selection<T>,
    i: Selection<T>,
)
    requires
        ordered::<T>(),
        dense::<T>(),
        d.wf(),
        i.wf(),
        d@ == a@.difference(b@),
        i@ == a@.intersect(b@.complement()),
    ensures
        d.tines() == i.tines(),
{
    lemma_difference(a, b);
    lemma_canonical(d, i);
}

/// Over a dense order with no least or greatest point, the empty and the
/// full selections act on a selection's tines as on its points.
pub proof fn lemma_empty_full_tines<T: Ord + Copy>(
    x: Selection<T>,
    e: Selection<T>,
    f: Selection<T>,
    r: Selection<T>,
)
    requires
        ordered::<T>(),
        dense::<T>(),
        x.wf(),
        e.wf(),
        f.wf(),
        r.wf(),
        e@ == Set::<T>::empty(),
        f@ == Set::<T>::full(),
        r@ == e@.union(x@) || r@ == f@.intersect(x@),
    ensures
        r.tines() == x.tines(),
{
    lemma_empty_full(x);
    lemma_canonical(r, x);
}

/// Over a dense order with no least or greatest point, inserting the same
/// intervals in any order gives the same tines.
pub proof fn lemma_insertion_order_tines<T: Ord + Copy>(
    a: Selection<T>,
    b: Selection<T>,
    v: Seq<RawInterval<T>>,
    w: Seq<RawInterval<T>>,
)
    requires
        ordered::<T>(),
        dense::<T>(),
        a.wf(),
        b.wf(),
        v.to_multiset() == w.to_multiset(),
        forall|p: T| #[trigger] a@.contains(p) == seq_contains(v, p),
        forall|p: T| #[trigger] b@.contains(p) == seq_contains(w, p),
    ensures
        a.tines() == b.tines(),
{
    lemma_insertion_order(a, b, v, w);
    lemma_canonical(a, b);
}

/// For every point type, the union of a selection with the empty one and
/// the intersection of the empty one with a selection are, tine for tine,
/// the selection and the empty one.
pub proof fn lemma_empty_tines<T: NextLower + NextUpper>(x: Seq<Tine<T>>)
    ensures
        inserted_all(x, started(Seq::<Tine<T>>::empty(), 0)) == x,
        resettled_run(merged_run(Seq::<Tine<T>>::empty(), x, Combine::Intersect)) == Seq::<Tine<T>>::empty(),
{
    lemma_sweep_empty_intersect(x, 0, false);
    let e = Seq::<Tine<T>>::empty();
    assert(started(e, 0) == Seq::<RawInterval<T>>::empty());
}

} // verus!
