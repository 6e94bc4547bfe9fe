//! The total order of the point type, stated over `Ord::cmp`.

use core::cmp::Ordering;
use vstd::laws_cmp::obeys_cmp;
use vstd::laws_eq::obeys_concrete_eq;
use vstd::prelude::*;
use vstd::std_specs::cmp::{OrdSpec, PartialOrdSpec};

verus! {

/// The point type's `cmp` and `==` form a total order whose equality is
/// spec equality.
pub open spec fn ordered<T: Ord>() -> bool {
    &&& obeys_cmp::<T>()
    &&& obeys_concrete_eq::<T>()
}

/// Strictly below.
pub open spec fn lt<T: Ord>(a: T, b: T) -> bool {
    a.cmp_spec(&b) == Ordering::Less
}

/// Below or equal.
pub open spec fn le<T: Ord>(a: T, b: T) -> bool {
    lt(a, b) || a == b
}

/// `a` comes right before `b`: below it, with no point between them.
pub open spec fn immediately_below<T: Ord>(a: T, b: T) -> bool {
    lt(a, b) && forall|z: T| !(#[trigger] lt(a, z) && lt(z, b))
}

/// The point right before `x`, where there is one.
pub open spec fn below_of<T: Ord>(x: T) -> Option<T> {
    if exists|y: T| immediately_below(y, x) {
        Some(choose|y: T| immediately_below(y, x))
    } else {
        None
    }
}

/// The point right after `x`, where there is one.
pub open spec fn above_of<T: Ord>(x: T) -> Option<T> {
    if exists|y: T| immediately_below(x, y) {
        Some(choose|y: T| immediately_below(x, y))
    } else {
        None
    }
}

/// No point is below `m`.
pub open spec fn is_least<T: Ord>(m: T) -> bool {
    forall|z: T| #[trigger] le(m, z)
}

/// No point is above `m`.
pub open spec fn is_greatest<T: Ord>(m: T) -> bool {
    forall|z: T| #[trigger] le(z, m)
}

/// The least point of the type.
pub open spec fn least<T: Ord>() -> T {
    choose|m: T| is_least(m)
}

/// The greatest point of the type.
pub open spec fn greatest<T: Ord>() -> T {
    choose|m: T| is_greatest(m)
}

/// The laws of a total order, for use in proofs.
pub proof fn lemma_order<T: Ord>()
    requires
        ordered::<T>(),
    ensures
        T::obeys_cmp_spec(),
        forall|a: T, b: T| #[trigger] a.cmp_spec(&b) == Ordering::Equal <==> a == b,
        forall|a: T, b: T| #[trigger] a.cmp_spec(&b) == Ordering::Greater <==> lt(b, a),
        forall|a: T, b: T| #[trigger] lt(a, b) ==> !lt(b, a) && a != b,
        forall|a: T| !#[trigger] lt(a, a),
        forall|a: T, b: T| a != b ==> #[trigger] lt(a, b) || lt(b, a),
        forall|a: T, b: T, c: T| #[trigger] lt(a, b) && #[trigger] lt(b, c) ==> lt(a, c),
{
    reveal(vstd::laws_cmp::obeys_partial_cmp_spec_properties);
    reveal(vstd::laws_cmp::obeys_cmp_partial_ord);
    reveal(vstd::laws_cmp::obeys_cmp_ord);
    reveal(vstd::laws_eq::obeys_concrete_eq);
    assert forall|a: T, b: T| #[trigger] a.cmp_spec(&b) == Ordering::Equal <==> a == b by {
        assert(a.partial_cmp_spec(&b) == Some(a.cmp_spec(&b)));
    }
    assert forall|a: T, b: T| #[trigger] a.cmp_spec(&b) == Ordering::Greater <==> lt(b, a) by {
        assert(a.partial_cmp_spec(&b) == Some(a.cmp_spec(&b)));
        assert(b.partial_cmp_spec(&a) == Some(b.cmp_spec(&a)));
    }
    assert forall|a: T, b: T| a != b implies #[trigger] lt(a, b) || lt(b, a) by {
        assert(a.partial_cmp_spec(&b) == Some(a.cmp_spec(&b)));
        assert(b.partial_cmp_spec(&a) == Some(b.cmp_spec(&a)));
    }
    assert forall|a: T, b: T, c: T| #[trigger] lt(a, b) && #[trigger] lt(b, c) implies lt(a, c) by {
        assert(a.partial_cmp_spec(&b) == Some(a.cmp_spec(&b)));
        assert(b.partial_cmp_spec(&c) == Some(b.cmp_spec(&c)));
        assert(a.partial_cmp_spec(&c) == Some(a.cmp_spec(&c)));
    }
}

/// A point has at most one immediate neighbour on each side.
pub proof fn lemma_neighbours<T: Ord>(a: T, b: T)
    requires
        ordered::<T>(),
        immediately_below(a, b),
    ensures
        below_of(b) == Some(a),
        above_of(a) == Some(b),
{
    lemma_order::<T>();
    let y = choose|y: T| immediately_below(y, b);
    if y != a {
        if lt(y, a) {
            assert(lt(y, a) && lt(a, b));
        } else {
            assert(lt(a, y) && lt(y, b));
        }
    }
    let z = choose|z: T| immediately_below(a, z);
    if z != b {
        if lt(z, b) {
            assert(lt(a, z) && lt(z, b));
        } else {
            assert(lt(a, b) && lt(b, z));
        }
    }
}

/// A least point is the least point; a greatest point is the greatest.
pub proof fn lemma_extremes<T: Ord>(lo: T, hi: T)
    requires
        ordered::<T>(),
        is_least(lo),
        is_greatest(hi),
    ensures
        least::<T>() == lo,
        greatest::<T>() == hi,
{
    lemma_order::<T>();
    let m = least::<T>();
    assert(le(m, lo) && le(lo, m));
    let n = greatest::<T>();
    assert(le(n, hi) && le(hi, n));
}

/// Three-way comparison of two points.
pub fn compare<T: Ord>(a: &T, b: &T) -> (r: Ordering)
    requires
        ordered::<T>(),
    ensures
        r == a.cmp_spec(b),
        r == Ordering::Less <==> lt(*a, *b),
        r == Ordering::Equal <==> *a == *b,
        r == Ordering::Greater <==> lt(*b, *a),
{
    proof {
        lemma_order::<T>();
    }
    a.cmp(b)
}

} // verus!
