//! Tines: the markers where a selection changes, and what a run of them
//! selects.

use crate::bound::{bound_point, lower_admits, upper_admits, Bound};
use crate::order::{compare, lemma_order, lt, ordered};
use crate::raw_interval::{lemma_contains_bounds, lemma_intersect, lemma_new, RawInterval};
use core::cmp::Ordering;
use vstd::prelude::*;

verus! {

/// A marker at a point (or at an infinite end) where the selection changes:
/// `lb` says the points just above it are selected, `ub` that the points just
/// below it are, and `incl` that the point itself is.
#[derive(Debug, Clone, Copy, PartialEq, Eq)]
pub struct Tine<T> {
    /// The point of the tine; `None` for an infinite end.
    pub point: Option<T>,
    /// The tine opens an interval going up.
    pub lb: bool,
    /// The tine closes an interval coming from below.
    pub ub: bool,
    /// The tine's point is selected.
    pub incl: bool,
}

/// An infinite tine is the lower end, opening upward, or the upper end,
/// closing from below; neither holds a point.
pub open spec fn tine_ok<T>(t: Tine<T>) -> bool {
    t.point is None ==> !t.incl && t.lb != t.ub
}

/// The tine lies strictly below the point.
pub open spec fn below<T: Ord>(t: Tine<T>, p: T) -> bool {
    match t.point {
        Some(a) => lt(a, p),
        None => t.lb,
    }
}

/// The tine lies strictly above the point.
pub open spec fn above<T: Ord>(t: Tine<T>, p: T) -> bool {
    match t.point {
        Some(a) => lt(p, a),
        None => !t.lb,
    }
}

/// The first tine lies strictly below the second.
pub open spec fn tine_lt<T: Ord>(x: Tine<T>, y: Tine<T>) -> bool {
    match (x.point, y.point) {
        (Some(a), Some(b)) => lt(a, b),
        (None, Some(_)) => x.lb,
        (Some(_), None) => !y.lb,
        (None, None) => x.lb && !y.lb,
    }
}

/// The two tines stand at one place.
pub open spec fn same_place<T>(x: Tine<T>, y: Tine<T>) -> bool {
    x.point == y.point && (x.point is None ==> x.lb == y.lb)
}

/// The tines stand in strictly ascending order.
pub open spec fn sorted<T: Ord>(s: Seq<Tine<T>>) -> bool {
    forall|m: int, n: int| 0 <= m < n < s.len() ==> #[trigger] tine_lt(s[m], s[n])
}

/// A tine with all three flags equal marks no change, and is not stored.
pub open spec fn marks_change<T>(t: Tine<T>) -> bool {
    !(t.lb == t.ub && t.ub == t.incl)
}

/// Tine `k` and the next agree on whether the points between them are
/// selected.
pub open spec fn linked<T>(s: Seq<Tine<T>>, k: int) -> bool {
    s[k].lb == s[k + 1].ub
}

/// The tines in ascending order, each marking a change, each agreeing with
/// its neighbour about the points between them, and nothing selected beyond
/// either end.
pub open spec fn tines_wf<T: Ord>(s: Seq<Tine<T>>) -> bool {
    &&& sorted(s)
    &&& forall|k: int| 0 <= k < s.len() ==> tine_ok(#[trigger] s[k])
    &&& forall|k: int| 0 <= k < s.len() ==> marks_change(#[trigger] s[k])
    &&& forall|k: int| 0 <= k < s.len() - 1 ==> #[trigger] linked(s, k)
    &&& s.len() > 0 ==> !s[0].ub && !s[s.len() - 1].lb
}

/// The point is selected by the tines: a tine at the point includes it, or,
/// with no tine there, the last tine below it opens upward and the next one,
/// if any, lies above it.
pub open spec fn selects<T: Ord>(s: Seq<Tine<T>>, p: T) -> bool {
    if exists|k: int| 0 <= k < s.len() && (#[trigger] s[k]).point == Some(p) {
        exists|k: int| 0 <= k < s.len() && (#[trigger] s[k]).point == Some(p) && s[k].incl
    } else {
        exists|k: int|
            0 <= k < s.len() && (#[trigger] s[k]).lb && below(s[k], p) && (k + 1 == s.len()
                || above(s[k + 1], p))
    }
}

/// Facts on the places of tines and points.
pub proof fn lemma_places<T: Ord>()
    requires
        ordered::<T>(),
    ensures
        forall|x: Tine<T>, y: Tine<T>, z: Tine<T>|
            #[trigger] tine_lt(x, y) && #[trigger] tine_lt(y, z) ==> tine_lt(x, z),
        forall|x: Tine<T>, y: Tine<T>, p: T|
            #[trigger] tine_lt(x, y) && #[trigger] below(y, p) ==> below(x, p),
        forall|x: Tine<T>, y: Tine<T>, p: T|
            #[trigger] tine_lt(x, y) && #[trigger] above(x, p) ==> above(y, p),
        forall|x: Tine<T>, y: Tine<T>, p: T|
            #[trigger] tine_lt(x, y) && x.point == Some(p) ==> #[trigger] above(y, p),
        forall|x: Tine<T>, y: Tine<T>, p: T|
            #[trigger] tine_lt(x, y) && y.point == Some(p) ==> #[trigger] below(x, p),
        forall|x: Tine<T>, y: Tine<T>, p: T|
            #[trigger] tine_lt(x, y) && !#[trigger] above(y, p) ==> below(x, p),
        forall|x: Tine<T>, p: T| #[trigger] below(x, p) ==> !above(x, p) && x.point != Some(p),
        forall|x: Tine<T>, p: T| #[trigger] above(x, p) ==> x.point != Some(p),
        forall|x: Tine<T>, p: T|
            !#[trigger] below(x, p) && !#[trigger] above(x, p) ==> x.point == Some(p),
        forall|x: Tine<T>| !#[trigger] tine_lt(x, x),
        forall|x: Tine<T>, y: Tine<T>, z: Tine<T>|
            #[trigger] tine_lt(x, y) && #[trigger] same_place(x, z) ==> tine_lt(z, y),
        forall|x: Tine<T>, y: Tine<T>, z: Tine<T>|
            #[trigger] tine_lt(x, y) && #[trigger] same_place(y, z) ==> tine_lt(x, z),
        forall|x: Tine<T>, z: Tine<T>, p: T|
            #[trigger] same_place(x, z) && #[trigger] below(x, p) ==> below(z, p),
        forall|x: Tine<T>, z: Tine<T>, p: T|
            #[trigger] same_place(x, z) && #[trigger] above(x, p) ==> above(z, p),
        forall|x: Tine<T>, y: Tine<T>| #[trigger] tine_lt(x, y) ==> !tine_lt(y, x) && !same_place(x, y),
{
    lemma_order::<T>();
}

/// Between the tines `k - 1` and `k`, a point is selected exactly when tine
/// `k - 1` opens upward.
pub proof fn lemma_region<T: Ord>(s: Seq<Tine<T>>, k: int, p: T)
    requires
        ordered::<T>(),
        sorted(s),
        0 <= k <= s.len(),
        k == 0 || below(s[k - 1], p),
        k == s.len() || above(s[k], p),
    ensures
        selects(s, p) == (k > 0 && s[k - 1].lb),
{
    lemma_places::<T>();
    assert forall|m: int| 0 <= m < k implies below(#[trigger] s[m], p) by {
        if m < k - 1 {
            assert(tine_lt(s[m], s[k - 1]));
        }
    }
    assert forall|m: int| k <= m < s.len() implies above(#[trigger] s[m], p) by {
        if m > k {
            assert(tine_lt(s[k], s[m]));
        }
    }
    assert(!exists|m: int| 0 <= m < s.len() && (#[trigger] s[m]).point == Some(p));
    if exists|m: int|
        0 <= m < s.len() && (#[trigger] s[m]).lb && below(s[m], p) && (m + 1 == s.len() || above(
            s[m + 1],
            p,
        )) {
        let m = choose|m: int|
            0 <= m < s.len() && (#[trigger] s[m]).lb && below(s[m], p) && (m + 1 == s.len()
                || above(s[m + 1], p));
        assert(m < k);
        if m + 1 < k {
            assert(below(s[m + 1], p));
        }
    }
    if k > 0 && s[k - 1].lb {
        assert(s[k - 1].lb && below(s[k - 1], p) && (k == s.len() || above(s[k], p)));
    }
}

/// At a tine's point, the point is selected exactly when the tine includes
/// it.
pub proof fn lemma_at<T: Ord>(s: Seq<Tine<T>>, k: int, p: T)
    requires
        ordered::<T>(),
        sorted(s),
        0 <= k < s.len(),
        s[k].point == Some(p),
    ensures
        selects(s, p) == s[k].incl,
{
    lemma_places::<T>();
    if exists|m: int| 0 <= m < s.len() && (#[trigger] s[m]).point == Some(p) && s[m].incl {
        let m = choose|m: int| 0 <= m < s.len() && (#[trigger] s[m]).point == Some(p) && s[m].incl;
        if m < k {
            assert(tine_lt(s[m], s[k]));
        } else if m > k {
            assert(tine_lt(s[k], s[m]));
        }
    }
}

/// A tine added above a point leaves the point's selection as it was.
pub proof fn lemma_push_above<T: Ord>(s: Seq<Tine<T>>, t: Tine<T>, p: T)
    requires
        ordered::<T>(),
        sorted(s.push(t)),
        above(t, p),
    ensures
        selects(s.push(t), p) == selects(s, p),
{
    lemma_places::<T>();
    let s2 = s.push(t);
    assert(s2.len() == s.len() + 1);
    assert forall|m: int| 0 <= m < s.len() implies #[trigger] s2[m] == s[m] by {}
    assert(s2[s.len() as int] == t);
    if exists|m: int| 0 <= m < s.len() && (#[trigger] s[m]).point == Some(p) {
        let m = choose|m: int| 0 <= m < s.len() && (#[trigger] s[m]).point == Some(p);
        lemma_at(s2, m, p);
        assert(sorted(s)) by {
            assert forall|x: int, y: int| 0 <= x < y < s.len() implies #[trigger] tine_lt(s[x], s[y]) by {
                assert(tine_lt(s2[x], s2[y]));
            }
        }
        lemma_at(s, m, p);
    } else {
        assert(sorted(s)) by {
            assert forall|x: int, y: int| 0 <= x < y < s.len() implies #[trigger] tine_lt(s[x], s[y]) by {
                assert(tine_lt(s2[x], s2[y]));
            }
        }
        let k = lemma_split(s, p);
        if k < s.len() {
            assert(above(s[k], p));
        }
        if k > 0 {
            assert(below(s[k - 1], p));
        }
        lemma_region(s, k, p);
        lemma_region(s2, k, p);
    }
}

/// In ascending tines, those below a point come first.
pub proof fn lemma_split<T: Ord>(s: Seq<Tine<T>>, p: T) -> (k: int)
    requires
        ordered::<T>(),
        sorted(s),
    ensures
        0 <= k <= s.len(),
        forall|m: int| 0 <= m < k ==> below(#[trigger] s[m], p),
        forall|m: int| k <= m < s.len() ==> !below(#[trigger] s[m], p),
    decreases s.len(),
{
    lemma_places::<T>();
    if s.len() == 0 {
        0
    } else {
        let t = s.drop_last();
        assert forall|x: int, y: int| 0 <= x < y < t.len() implies #[trigger] tine_lt(t[x], t[y]) by {
            assert(tine_lt(s[x], s[y]));
        }
        let k0 = lemma_split(t, p);
        assert forall|m: int| 0 <= m < t.len() implies #[trigger] t[m] == s[m] by {}
        let last = s.len() - 1;
        assert forall|m: int| 0 <= m < k0 implies below(#[trigger] s[m], p) by {
            assert(t[m] == s[m]);
        }
        assert forall|m: int| k0 <= m < last implies !below(#[trigger] s[m], p) by {
            assert(t[m] == s[m]);
        }
        if k0 == last && below(s[last], p) {
            s.len() as int
        } else {
            if k0 < last {
                assert(tine_lt(s[k0], s[last]));
            }
            k0
        }
    }
}

/// Zero, one or two values.
#[derive(Debug, Clone, Copy, PartialEq, Eq, Hash)]
pub enum Split<T> {
    /// No value.
    Zero,
    /// One value.
    One(T),
    /// Two values.
    Two(T, T),
}

/// The values of a `Split`, in order.
pub open spec fn split_seq<T>(s: Split<T>) -> Seq<T> {
    match s {
        Split::Zero => seq![],
        Split::One(x) => seq![x],
        Split::Two(x, y) => seq![x, y],
    }
}

/// The tine that opens an interval at the given lower bound.
pub open spec fn lower_tine<T>(b: Bound<T>) -> Tine<T> {
    match b {
        Bound::Include(v) => Tine { point: Some(v), lb: true, ub: false, incl: true },
        Bound::Exclude(v) => Tine { point: Some(v), lb: true, ub: false, incl: false },
        Bound::Infinite => Tine { point: None, lb: true, ub: false, incl: false },
    }
}

/// The tine that closes an interval at the given upper bound.
pub open spec fn upper_tine<T>(b: Bound<T>) -> Tine<T> {
    match b {
        Bound::Include(v) => Tine { point: Some(v), lb: false, ub: true, incl: true },
        Bound::Exclude(v) => Tine { point: Some(v), lb: false, ub: true, incl: false },
        Bound::Infinite => Tine { point: None, lb: false, ub: true, incl: false },
    }
}

/// The tine of a selected point standing alone.
pub open spec fn point_tine<T>(v: T) -> Tine<T> {
    Tine { point: Some(v), lb: false, ub: false, incl: true }
}

/// The lower bound that a tine opening upward stands for.
pub open spec fn lower_of<T>(t: Tine<T>) -> Bound<T> {
    match t.point {
        Some(v) => if t.incl {
            Bound::Include(v)
        } else {
            Bound::Exclude(v)
        },
        None => Bound::Infinite,
    }
}

/// The upper bound that a tine closing from below stands for.
pub open spec fn upper_of<T>(t: Tine<T>) -> Bound<T> {
    match t.point {
        Some(v) => if t.incl {
            Bound::Include(v)
        } else {
            Bound::Exclude(v)
        },
        None => Bound::Infinite,
    }
}

/// The interval holds a single point.
pub open spec fn degenerate<T>(iv: RawInterval<T>) -> bool {
    match iv {
        RawInterval::Point(_) => true,
        RawInterval::Closed(l, r) => l == r,
        _ => false,
    }
}

/// The tines of a single interval.
pub open spec fn interval_tines<T: Ord>(iv: RawInterval<T>) -> Seq<Tine<T>> {
    if iv is Empty {
        seq![]
    } else if degenerate(iv) {
        seq![point_tine(bound_point(iv.lower_spec()))]
    } else {
        seq![lower_tine(iv.lower_spec()), upper_tine(iv.upper_spec())]
    }
}

/// The tines of a well-formed interval are well formed and select its
/// points.
pub proof fn lemma_interval_tines<T: Ord>(iv: RawInterval<T>)
    requires
        ordered::<T>(),
        iv.wf(),
    ensures
        tines_wf(interval_tines(iv)),
        forall|p: T| #[trigger] selects(interval_tines(iv), p) == iv.contains_spec(p),
{
    lemma_order::<T>();
    lemma_places::<T>();
    let s = interval_tines(iv);
    if !(iv is Empty) {
        lemma_contains_bounds(iv);
    }
    if iv is Empty {
        assert forall|p: T| #[trigger] selects(s, p) == iv.contains_spec(p) by {
            lemma_region(s, 0, p);
        }
    } else if degenerate(iv) {
        let v = bound_point(iv.lower_spec());
        assert(sorted(s));
        assert forall|p: T| #[trigger] selects(s, p) == iv.contains_spec(p) by {
            if p == v {
                lemma_at(s, 0, p);
            } else if lt(p, v) {
                lemma_region(s, 0, p);
            } else {
                lemma_region(s, 1, p);
            }
        }
    } else {
        assert(tine_lt(s[0], s[1]));
        assert(sorted(s));
        assert(linked(s, 0));
        assert forall|p: T| #[trigger] selects(s, p) == iv.contains_spec(p) by {
            if s[0].point == Some(p) {
                lemma_at(s, 0, p);
            } else if s[1].point == Some(p) {
                lemma_at(s, 1, p);
            } else if !below(s[0], p) {
                lemma_region(s, 0, p);
            } else if above(s[1], p) {
                lemma_region(s, 1, p);
            } else {
                lemma_region(s, 2, p);
            }
        }
    }
}

impl<T: Ord + Copy> Tine<T> {
    /// Returns whether the tine marks a selected point standing alone.
    pub fn is_point(&self) -> (r: bool)
        ensures
            r == (!self.lb && !self.ub && self.incl && self.point is Some),
    {
        !self.lb && !self.ub && self.incl && self.point.is_some()
    }

    /// Returns the tines of the given interval: none for an empty one, a
    /// point tine for a single point, else a lower and an upper tine.
    pub fn from_interval(interval: RawInterval<T>) -> (r: Split<Self>)
        requires
            ordered::<T>(),
            interval.wf(),
        ensures
            split_seq(r) == interval_tines(interval),
    {
        proof {
            lemma_order::<T>();
        }
        if interval.is_empty() {
            Split::Zero
        } else {
            let lower = interval.lower_bound().unwrap();
            let upper = interval.upper_bound().unwrap();
            let degenerate = match (lower, upper) {
                (Bound::Include(l), Bound::Include(u)) => matches!(compare(&l, &u), Ordering::Equal),
                _ => false,
            };
            if degenerate {
                Split::One(Tine { point: Some(*lower.as_ref()), lb: false, ub: false, incl: true })
            } else {
                Split::Two(Self::from_lower(lower), Self::from_upper(upper))
            }
        }
    }

    /// Returns the tine that opens an interval at the given lower bound.
    fn from_lower(b: Bound<T>) -> (r: Self)
        ensures
            r == lower_tine(b),
    {
        match b {
            Bound::Include(v) => Tine { point: Some(v), lb: true, ub: false, incl: true },
            Bound::Exclude(v) => Tine { point: Some(v), lb: true, ub: false, incl: false },
            Bound::Infinite => Tine { point: None, lb: true, ub: false, incl: false },
        }
    }

    /// Returns the tine that closes an interval at the given upper bound.
    fn from_upper(b: Bound<T>) -> (r: Self)
        ensures
            r == upper_tine(b),
    {
        match b {
            Bound::Include(v) => Tine { point: Some(v), lb: false, ub: true, incl: true },
            Bound::Exclude(v) => Tine { point: Some(v), lb: false, ub: true, incl: false },
            Bound::Infinite => Tine { point: None, lb: false, ub: true, incl: false },
        }
    }

    /// Combines two tines at one point by or-ing their flags; `None` where
    /// every flag is then set, as the tine then joins two intervals through
    /// a selected point and marks no boundary.
    pub fn merge(self, other: Self) -> (r: Option<Self>)
        ensures
            ({
                let m = Tine {
                    point: self.point,
                    lb: self.lb || other.lb,
                    ub: self.ub || other.ub,
                    incl: self.incl || other.incl,
                };
                r == if m.lb && m.ub && m.incl {
                    None
                } else {
                    Some(m)
                }
            }),
    {
        let merged = Tine {
            point: self.point,
            lb: self.lb || other.lb,
            ub: self.ub || other.ub,
            incl: self.incl || other.incl,
        };
        if merged.lb && merged.ub && merged.incl {
            None
        } else {
            Some(merged)
        }
    }

    /// Returns the lower bound that the tine stands for, or `None` for an
    /// infinite tine.
    pub fn into_bound_lower(lb: Self) -> (r: Option<Bound<T>>)
        ensures
            r == (if lb.point is None { None } else { Some(lower_of(lb)) }),
    {
        match lb.point {
            None => None,
            Some(v) => if lb.incl {
                Some(Bound::Include(v))
            } else {
                Some(Bound::Exclude(v))
            },
        }
    }

    /// Returns the upper bound that the tine stands for, or `None` for an
    /// infinite tine.
    pub fn into_bound_upper(ub: Self) -> (r: Option<Bound<T>>)
        ensures
            r == (if ub.point is None { None } else { Some(upper_of(ub)) }),
    {
        match ub.point {
            None => None,
            Some(v) => if ub.incl {
                Some(Bound::Include(v))
            } else {
                Some(Bound::Exclude(v))
            },
        }
    }
}

/// Some tine among the first `n` stands at the point.
pub open spec fn point_among<T>(s: Seq<Tine<T>>, n: int, p: T) -> bool {
    exists|k: int| 0 <= k < n && (#[trigger] s[k]).point == Some(p)
}

/// The interval that tine `k` starts: its point where it stands alone, the
/// stretch to the next tine where it opens upward, else nothing.
pub open spec fn tine_interval<T: Ord>(s: Seq<Tine<T>>, k: int) -> RawInterval<T> {
    if !s[k].lb && !s[k].ub && s[k].incl && s[k].point is Some {
        RawInterval::Point(s[k].point->0)
    } else if s[k].lb && k + 1 < s.len() {
        RawInterval::new_spec(lower_of(s[k]), upper_of(s[k + 1]))
    } else {
        RawInterval::Empty
    }
}

/// Two intervals lie apart: every point of the first is below every point
/// of the second, and they neither intersect nor touch.
pub open spec fn apart<T: Ord>(a: RawInterval<T>, b: RawInterval<T>) -> bool {
    &&& forall|p: T, q: T| #[trigger] a.contains_spec(p) && #[trigger] b.contains_spec(q) ==> lt(p, q)
    &&& !a.intersects_spec(b)
    &&& !a.adjacent_spec(b)
}

/// Tine `k` starts an interval: it stands alone at a selected point, or it
/// opens upward.
pub open spec fn starts<T>(s: Seq<Tine<T>>, k: int) -> bool {
    (!s[k].lb && !s[k].ub && s[k].incl && s[k].point is Some) || (s[k].lb && k + 1 < s.len())
}

/// The intervals that the first `k` tines start, in order.
pub open spec fn started<T: Ord>(s: Seq<Tine<T>>, k: int) -> Seq<RawInterval<T>>
    decreases k,
{
    if k <= 0 {
        seq![]
    } else if starts(s, k - 1) {
        started(s, k - 1).push(tine_interval(s, k - 1))
    } else {
        started(s, k - 1)
    }
}

/// A tine that starts an interval starts a non-empty one.
pub proof fn lemma_started_nonempty<T: Ord>(s: Seq<Tine<T>>, k: int)
    requires
        ordered::<T>(),
        tines_wf(s),
        0 <= k < s.len(),
        starts(s, k),
    ensures
        !(tine_interval(s, k) is Empty),
{
    lemma_order::<T>();
    if s[k].lb && k + 1 < s.len() {
        assert(tine_lt(s[k], s[k + 1]));
    }
}

/// The intervals that two tines start lie apart, the earlier one wholly
/// below the later one; they neither intersect nor touch.
pub proof fn lemma_tine_intervals_apart<T: Ord>(s: Seq<Tine<T>>, m: int, n: int)
    requires
        ordered::<T>(),
        tines_wf(s),
        0 <= m < n < s.len(),
        starts(s, m),
        starts(s, n),
    ensures
        apart(tine_interval(s, m), tine_interval(s, n)),
{
    lemma_order::<T>();
    lemma_places::<T>();
    let a = tine_interval(s, m);
    let b = tine_interval(s, n);
    let me = if s[m].lb { m + 1 } else { m };
    let ne = if s[n].lb { n + 1 } else { n };
    assert(me <= n);
    if s[m].lb {
        lemma_new(lower_of(s[m]), upper_of(s[m + 1]));
        assert(tine_lt(s[m], s[m + 1]));
    }
    if s[n].lb {
        lemma_new(lower_of(s[n]), upper_of(s[n + 1]));
        assert(tine_lt(s[n], s[n + 1]));
    }
    if me < n {
        assert(tine_lt(s[me], s[n]));
    }
    if me == n {
        assert(s[m].lb);
        assert(linked(s, m));
        assert(s[n].ub);
        assert(marks_change(s[n]));
    }
    assert(tine_lt(s[m], s[n]));
    if ne > n {
        assert(tine_lt(s[m], s[ne]));
    }
    assert forall|p: T, q: T|
        #[trigger] a.contains_spec(p) && #[trigger] b.contains_spec(q) implies lt(p, q) by {
        if me < n {
            assert(tine_lt(s[me], s[n]));
        }
    }
    lemma_intersect(a, b);
    if !(a is Empty) && !(b is Empty) {
        lemma_contains_bounds(a);
        lemma_contains_bounds(b);
    }
}

/// The intervals that the tines start hold exactly the selected points.
pub proof fn lemma_iter_faithful<T: Ord>(s: Seq<Tine<T>>, p: T)
    requires
        ordered::<T>(),
        tines_wf(s),
    ensures
        (exists|m: int| 0 <= m < s.len() && (#[trigger] tine_interval(s, m)).contains_spec(p))
            == selects(s, p),
{
    lemma_order::<T>();
    lemma_places::<T>();
    if exists|m: int| 0 <= m < s.len() && (#[trigger] tine_interval(s, m)).contains_spec(p) {
        let m = choose|m: int| 0 <= m < s.len() && (#[trigger] tine_interval(s, m)).contains_spec(p);
        if !s[m].lb && !s[m].ub && s[m].incl && s[m].point is Some {
            lemma_at(s, m, p);
        } else {
            lemma_new(lower_of(s[m]), upper_of(s[m + 1]));
            assert(tine_lt(s[m], s[m + 1]));
            if s[m].point == Some(p) {
                lemma_at(s, m, p);
            } else if s[m + 1].point == Some(p) {
                lemma_at(s, m + 1, p);
            } else {
                assert(below(s[m], p));
                assert(above(s[m + 1], p));
                lemma_region(s, m + 1, p);
            }
        }
    }
    if selects(s, p) {
        let k = lemma_split(s, p);
        if k < s.len() && s[k].point == Some(p) {
            lemma_at(s, k, p);
            if s[k].lb {
                assert(k + 1 < s.len());
                assert(tine_lt(s[k], s[k + 1]));
                lemma_new(lower_of(s[k]), upper_of(s[k + 1]));
                assert(tine_interval(s, k).contains_spec(p));
            } else if s[k].ub {
                assert(k > 0);
                assert(linked(s, k - 1));
                assert(tine_lt(s[k - 1], s[k]));
                lemma_new(lower_of(s[k - 1]), upper_of(s[k]));
                assert(tine_interval(s, k - 1).contains_spec(p));
            } else {
                assert(tine_interval(s, k).contains_spec(p));
            }
        } else {
            if k < s.len() {
                assert(above(s[k], p));
            }
            lemma_region(s, k, p);
            assert(k < s.len());
            lemma_new(lower_of(s[k - 1]), upper_of(s[k]));
            assert(tine_interval(s, k - 1).contains_spec(p));
        }
    }
}

/// The bounds of the first and the last tine admit every selected point.
pub proof fn lemma_bounds_admit<T: Ord>(s: Seq<Tine<T>>)
    requires
        ordered::<T>(),
        tines_wf(s),
    ensures
        forall|p: T| #[trigger] selects(s, p) ==> s.len() > 0 && lower_admits(lower_of(s[0]), p)
            && upper_admits(upper_of(s[s.len() - 1]), p),
{
    lemma_order::<T>();
    lemma_places::<T>();
    assert forall|p: T| #[trigger] selects(s, p) implies s.len() > 0 && lower_admits(lower_of(s[0]), p)
        && upper_admits(upper_of(s[s.len() - 1]), p) by {
        let n = s.len();
        let k = lemma_split(s, p);
        if k < n && s[k].point == Some(p) {
            lemma_at(s, k, p);
            if k > 0 {
                assert(tine_lt(s[0], s[k]));
            }
            if k < n - 1 {
                assert(tine_lt(s[k], s[n - 1]));
            }
        } else {
            if k < n {
                assert(above(s[k], p));
            }
            lemma_region(s, k, p);
            assert(0 < k < n);
            if k > 1 {
                assert(tine_lt(s[0], s[k - 1]));
            }
            if k < n - 1 {
                assert(tine_lt(s[k], s[n - 1]));
            }
        }
    }
}

/// Returns the lower bound that a tine opening upward stands for.
pub fn bound_lower<T: Copy>(t: &Tine<T>) -> (r: Bound<T>)
    ensures
        r == lower_of(*t),
{
    match t.point {
        Some(v) => if t.incl {
            Bound::Include(v)
        } else {
            Bound::Exclude(v)
        },
        None => Bound::Infinite,
    }
}

/// Returns the upper bound that a tine closing from below stands for.
pub fn bound_upper<T: Copy>(t: &Tine<T>) -> (r: Bound<T>)
    ensures
        r == upper_of(*t),
{
    match t.point {
        Some(v) => if t.incl {
            Bound::Include(v)
        } else {
            Bound::Exclude(v)
        },
        None => Bound::Infinite,
    }
}

/// Returns whether the tine lies strictly below the point.
pub fn tine_below<T: Ord + Copy>(t: &Tine<T>, p: &T) -> (r: bool)
    requires
        ordered::<T>(),
    ensures
        r == below(*t, *p),
{
    match &t.point {
        Some(a) => matches!(compare(a, p), Ordering::Less),
        None => t.lb,
    }
}

} // verus!
