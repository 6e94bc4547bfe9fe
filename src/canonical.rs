//! Over a dense order, a run of tines is fixed by the points it selects.

use crate::order::{lemma_order, lt, ordered};
use crate::tine::{
    above, below, lemma_at, lemma_places, lemma_region, lemma_split, linked, marks_change, selects,
    sorted, tine_lt, tines_wf, Tine,
};
use vstd::prelude::*;

verus! {

/// Some point lies below `a`.
pub open spec fn has_below<T: Ord>(a: T) -> bool {
    exists|b: T| lt(b, a)
}

/// Some point lies above `a`.
pub open spec fn has_above<T: Ord>(a: T) -> bool {
    exists|b: T| lt(a, b)
}

/// Some point lies strictly between `a` and `b`.
pub open spec fn has_between<T: Ord>(a: T, b: T) -> bool {
    exists|c: T| lt(a, c) && lt(c, b)
}

/// Between any two points lies a third, and no point is least or greatest.
pub open spec fn dense<T: Ord>() -> bool {
    &&& forall|a: T, b: T| lt(a, b) ==> #[trigger] has_between(a, b)
    &&& forall|a: T| #[trigger] has_below(a)
    &&& forall|a: T| #[trigger] has_above(a)
}

/// Over a dense order, a point lies strictly between two places, either of
/// which may be open.
proof fn lemma_between<T: Ord>(lo: Option<T>, hi: Option<T>) -> (c: T)
    requires
        ordered::<T>(),
        dense::<T>(),
        match (lo, hi) {
            (Some(a), Some(b)) => lt(a, b),
            _ => true,
        },
    ensures
        match lo {
            Some(a) => lt(a, c),
            None => true,
        },
        match hi {
            Some(b) => lt(c, b),
            None => true,
        },
{
    match (lo, hi) {
        (Some(a), Some(b)) => {
            assert(has_between(a, b));
            choose|c: T| lt(a, c) && lt(c, b)
        },
        (Some(a), None) => {
            assert(has_above(a));
            choose|b: T| lt(a, b)
        },
        (None, Some(b)) => {
            assert(has_below(b));
            choose|a: T| lt(a, b)
        },
        (None, None) => {
            let a: T = arbitrary();
            assert(has_above(a));
            choose|b: T| lt(a, b)
        },
    }
}

/// The later of two optional places, `None` standing for below everything.
spec fn later<T: Ord>(a: Option<T>, b: Option<T>) -> Option<T> {
    match (a, b) {
        (Some(x), Some(y)) => if lt(x, y) {
            b
        } else {
            a
        },
        (Some(_), None) => a,
        _ => b,
    }
}

/// The earlier of two optional places, `None` standing for above
/// everything.
spec fn earlier<T: Ord>(a: Option<T>, b: Option<T>) -> Option<T> {
    match (a, b) {
        (Some(x), Some(y)) => if lt(x, y) {
            a
        } else {
            b
        },
        (Some(_), None) => a,
        _ => b,
    }
}

/// Over a dense order, a finite tine of one well-formed run stands, flags
/// and all, in every other run that selects the same points.
proof fn lemma_finite_tine_shared<T: Ord>(s1: Seq<Tine<T>>, s2: Seq<Tine<T>>, k: int, q: T)
    requires
        ordered::<T>(),
        dense::<T>(),
        tines_wf(s1),
        tines_wf(s2),
        forall|p: T| #[trigger] selects(s1, p) == selects(s2, p),
        0 <= k < s1.len(),
        s1[k].point == Some(q),
    ensures
        s2.contains(s1[k]),
{
    lemma_order::<T>();
    lemma_places::<T>();
    let n1 = s1.len();
    let n2 = s2.len();
    let j = lemma_split(s2, q);
    let at2 = j < n2 && s2[j].point == Some(q);
    let j2 = if at2 { j + 1 } else { j };
    if k > 0 {
        assert(tine_lt(s1[k - 1], s1[k]));
    }
    if k + 1 < n1 {
        assert(tine_lt(s1[k], s1[k + 1]));
    }
    if j < n2 && !at2 {
        assert(above(s2[j], q));
    }
    if at2 && j + 1 < n2 {
        assert(tine_lt(s2[j], s2[j + 1]));
    }
    // a point just below q
    let lo1 = if k > 0 { s1[k - 1].point } else { None };
    let lo2 = if j > 0 { s2[j - 1].point } else { None };
    if j > 0 {
        assert(below(s2[j - 1], q));
    }
    if let Some(a) = lo1 {
        assert(lt(a, q));
    }
    if let Some(a) = lo2 {
        assert(lt(a, q));
    }
    let x = lemma_between(later(lo1, lo2), Some(q));
    if k > 0 {
        assert(below(s1[k - 1], x));
    }
    if j > 0 {
        assert(below(s2[j - 1], x));
    }
    lemma_region(s1, k, x);
    if j < n2 {
        assert(above(s2[j], x));
    }
    lemma_region(s2, j, x);
    if k > 0 {
        assert(linked(s1, k - 1));
    }
    assert(s1[k].ub == (j > 0 && s2[j - 1].lb));
    // a point just above q
    let hi1 = if k + 1 < n1 { s1[k + 1].point } else { None };
    let hi2 = if j2 < n2 { s2[j2].point } else { None };
    if let Some(b) = hi1 {
        assert(lt(q, b));
    }
    if let Some(b) = hi2 {
        assert(lt(q, b));
    }
    let y = lemma_between(Some(q), earlier(hi1, hi2));
    if k + 1 < n1 {
        assert(above(s1[k + 1], y));
    }
    if j2 < n2 {
        assert(above(s2[j2], y));
    }
    if j2 > 0 {
        assert(below(s2[j2 - 1], y));
    }
    lemma_region(s1, k + 1, y);
    lemma_region(s2, j2, y);
    // q itself
    lemma_at(s1, k, q);
    if at2 {
        lemma_at(s2, j, q);
        if j > 0 {
            assert(linked(s2, j - 1));
        }
        assert(s2[j] == s1[k]);
    } else {
        if j > 0 {
            assert(below(s2[j - 1], q));
        }
        lemma_region(s2, j, q);
        assert(!marks_change(s1[k]));
    }
}

/// Over a dense order, an infinite tine of one well-formed run stands in
/// every other run that selects the same points.
proof fn lemma_infinite_tine_shared<T: Ord>(s1: Seq<Tine<T>>, s2: Seq<Tine<T>>, k: int)
    requires
        ordered::<T>(),
        dense::<T>(),
        tines_wf(s1),
        tines_wf(s2),
        forall|p: T| #[trigger] selects(s1, p) == selects(s2, p),
        0 <= k < s1.len(),
        s1[k].point is None,
    ensures
        s2.contains(s1[k]),
{
    lemma_order::<T>();
    lemma_places::<T>();
    let n1 = s1.len();
    let n2 = s2.len();
    if s1[k].lb {
        // the lower end: points far below are selected
        assert(k == 0) by {
            if k > 0 {
                assert(tine_lt(s1[0], s1[k]));
            }
        }
        assert(n1 > 1);
        let hi1 = s1[1].point;
        let hi2 = if n2 > 0 && s2[0].point is Some {
            s2[0].point
        } else if n2 > 1 {
            s2[1].point
        } else {
            None
        };
        let x = lemma_between(None, earlier(hi1, hi2));
        assert(tine_lt(s1[0], s1[1]));
        if let Some(b) = hi1 {
            assert(lt(x, b)) by {
                if let Some(c) = hi2 {
                    assert(lt(x, c));
                }
            }
        }
        if let Some(c) = hi2 {
            assert(lt(x, c)) by {
                if let Some(b) = hi1 {
                    assert(lt(x, b));
                }
            }
        }
        if n2 > 1 {
            assert(tine_lt(s2[0], s2[1]));
        }
        assert(above(s1[1], x));
        lemma_region(s1, 1, x);
        if n2 > 0 && s2[0].point is Some {
            assert(above(s2[0], x));
            lemma_region(s2, 0, x);
        } else if n2 > 0 {
            if n2 > 1 {
                assert(above(s2[1], x));
                lemma_region(s2, 1, x);
            } else {
                lemma_region(s2, 1, x);
            }
            assert(s2[0] == s1[0]);
        } else {
            lemma_region(s2, 0, x);
        }
    } else {
        // the upper end: points far above are selected
        assert(k == n1 - 1) by {
            if k < n1 - 1 {
                assert(tine_lt(s1[k], s1[n1 - 1]));
            }
        }
        assert(n1 > 1);
        let lo1 = s1[n1 - 2].point;
        let lo2 = if n2 > 0 && s2[n2 - 1].point is Some {
            s2[n2 - 1].point
        } else if n2 > 1 {
            s2[n2 - 2].point
        } else {
            None
        };
        let x = lemma_between(later(lo1, lo2), None);
        assert(tine_lt(s1[n1 - 2], s1[n1 - 1]));
        if let Some(a) = lo1 {
            assert(lt(a, x)) by {
                if let Some(c) = lo2 {
                    assert(lt(c, x));
                }
            }
        }
        if let Some(c) = lo2 {
            assert(lt(c, x)) by {
                if let Some(a) = lo1 {
                    assert(lt(a, x));
                }
            }
        }
        if n2 > 1 {
            assert(tine_lt(s2[n2 - 2], s2[n2 - 1]));
        }
        assert(below(s1[n1 - 2], x));
        assert(linked(s1, n1 - 2));
        lemma_region(s1, n1 - 1, x);
        if n2 > 0 && s2[n2 - 1].point is Some {
            assert(below(s2[n2 - 1], x));
            lemma_region(s2, n2 as int, x);
        } else if n2 > 0 {
            if n2 > 1 {
                assert(below(s2[n2 - 2], x));
                assert(linked(s2, n2 - 2));
                lemma_region(s2, n2 - 1, x);
            } else {
                lemma_region(s2, 0, x);
            }
            assert(s2[n2 - 1] == s1[k]);
        } else {
            lemma_region(s2, 0, x);
        }
    }
}

/// Two runs in strictly ascending order, each holding every tine of the
/// other, are the same run.
proof fn lemma_sorted_same<T: Ord>(s1: Seq<Tine<T>>, s2: Seq<Tine<T>>)
    requires
        ordered::<T>(),
        sorted(s1),
        sorted(s2),
        forall|t: Tine<T>| s1.contains(t) ==> s2.contains(t),
        forall|t: Tine<T>| s2.contains(t) ==> s1.contains(t),
    ensures
        s1 == s2,
    decreases s1.len(),
{
    lemma_places::<T>();
    if s1.len() == 0 {
        if s2.len() > 0 {
            assert(s2.contains(s2[0]));
        }
        assert(s1 =~= s2);
    } else {
        assert(s1.contains(s1[0]));
        let j = choose|j: int| 0 <= j < s2.len() && s2[j] == s1[0];
        assert(s2.contains(s2[0]));
        let i = choose|i: int| 0 <= i < s1.len() && s1[i] == s2[0];
        if j > 0 {
            assert(tine_lt(s2[0], s2[j]));
            if i > 0 {
                assert(tine_lt(s1[0], s1[i]));
            }
        }
        assert(s2[0] == s1[0]);
        let r1 = s1.drop_first();
        let r2 = s2.drop_first();
        assert forall|x: int, y: int| 0 <= x < y < r1.len() implies #[trigger] tine_lt(r1[x], r1[y]) by {
            assert(tine_lt(s1[x + 1], s1[y + 1]));
        }
        assert forall|x: int, y: int| 0 <= x < y < r2.len() implies #[trigger] tine_lt(r2[x], r2[y]) by {
            assert(tine_lt(s2[x + 1], s2[y + 1]));
        }
        assert forall|t: Tine<T>| r1.contains(t) implies r2.contains(t) by {
            let m = choose|m: int| 0 <= m < r1.len() && r1[m] == t;
            assert(s1[m + 1] == t);
            assert(tine_lt(s1[0], s1[m + 1]));
            assert(s2.contains(t));
            let n = choose|n: int| 0 <= n < s2.len() && s2[n] == t;
            assert(n > 0);
            assert(r2[n - 1] == t);
        }
        assert forall|t: Tine<T>| r2.contains(t) implies r1.contains(t) by {
            let m = choose|m: int| 0 <= m < r2.len() && r2[m] == t;
            assert(s2[m + 1] == t);
            assert(tine_lt(s2[0], s2[m + 1]));
            assert(s1.contains(t));
            let n = choose|n: int| 0 <= n < s1.len() && s1[n] == t;
            assert(n > 0);
            assert(r1[n - 1] == t);
        }
        lemma_sorted_same(r1, r2);
        assert(s1 =~= s2) by {
            assert forall|m: int| 0 <= m < s1.len() implies s1[m] == s2[m] by {
                if m > 0 {
                    assert(s1[m] == r1[m - 1]);
                    assert(s2[m] == r2[m - 1]);
                }
            }
        }
    }
}

/// Over a dense order with no least or greatest point, two well-formed runs
/// of tines that select the same points are the same run.
pub proof fn lemma_tines_canonical<T: Ord>(s1: Seq<Tine<T>>, s2: Seq<Tine<T>>)
    requires
        ordered::<T>(),
        dense::<T>(),
        tines_wf(s1),
        tines_wf(s2),
        forall|p: T| #[trigger] selects(s1, p) == selects(s2, p),
    ensures
        s1 == s2,
{
    assert forall|t: Tine<T>| s1.contains(t) implies s2.contains(t) by {
        let k = choose|k: int| 0 <= k < s1.len() && s1[k] == t;
        match t.point {
            Some(q) => lemma_finite_tine_shared(s1, s2, k, q),
            None => lemma_infinite_tine_shared(s1, s2, k),
        }
    }
    assert forall|t: Tine<T>| s2.contains(t) implies s1.contains(t) by {
        let k = choose|k: int| 0 <= k < s2.len() && s2[k] == t;
        match t.point {
            Some(q) => lemma_finite_tine_shared(s2, s1, k, q),
            None => lemma_infinite_tine_shared(s2, s1, k),
        }
    }
    lemma_sorted_same(s1, s2);
}

/// Over a dense order, a well-formed run with a tine selects some point.
pub proof fn lemma_nonempty_selects<T: Ord>(s: Seq<Tine<T>>) -> (p: T)
    requires
        ordered::<T>(),
        dense::<T>(),
        tines_wf(s),
        s.len() > 0,
    ensures
        selects(s, p),
{
    lemma_order::<T>();
    lemma_places::<T>();
    assert(marks_change(s[0]));
    if s[0].lb {
        assert(s.len() > 1);
        assert(tine_lt(s[0], s[1]));
        let lo = s[0].point;
        let hi = s[1].point;
        let x = lemma_between(lo, hi);
        assert(below(s[0], x));
        assert(above(s[1], x));
        lemma_region(s, 1, x);
        x
    } else {
        let q = s[0].point->0;
        lemma_at(s, 0, q);
        q
    }
}

} // verus!
