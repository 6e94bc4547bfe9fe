//! Selections: finite unions of intervals, stored as a sorted run of tines.

use crate::bound::{bound_point, lower_admits, upper_admits, Bound};
use crate::canonical::{dense, lemma_nonempty_selects, lemma_tines_canonical};
use crate::normalize::{NextLower, NextUpper};
use crate::order::{compare, lemma_order, ordered};
use core::cmp::Ordering;
use crate::raw_interval::{
    all_wf, lemma_contains_bounds, lemma_seq_contains_push, seq_contains, RawInterval,
};
use crate::sweep::{combine, merged_run, Combine};
use crate::tine::{
    above, apart, below, bound_lower, degenerate, bound_upper, interval_tines, lemma_at, lemma_bounds_admit,
    lemma_interval_tines, lemma_iter_faithful, lemma_places, lemma_region, lemma_split,
    lemma_started_nonempty, lemma_tine_intervals_apart, linked, lower_of, point_among, point_tine, same_place, selects,
    sorted, started, starts, tine_below, tine_interval, tine_lt, tines_wf, upper_of, Split, Tine,
};
use vstd::prelude::*;

verus! {

/// A lower bound that excludes its point, made to include the point right
/// above where the type tells it.
pub open spec fn settled_lower<T: NextUpper>(b: Bound<T>) -> Bound<T> {
    match b {
        Bound::Exclude(v) => match v.next_upper_spec() {
            Some(w) => Bound::Include(w),
            None => b,
        },
        _ => b,
    }
}

/// An upper bound that excludes its point, made to include the point right
/// below where the type tells it.
pub open spec fn settled_upper<T: NextLower>(b: Bound<T>) -> Bound<T> {
    match b {
        Bound::Exclude(v) => match v.next_lower_spec() {
            Some(u) => Bound::Include(u),
            None => b,
        },
        _ => b,
    }
}

/// The interval with each excluded endpoint replaced by the included point
/// next to it, where the type tells that point; `Empty` stays `Empty`.
pub open spec fn settled<T: NextLower + NextUpper>(iv: RawInterval<T>) -> RawInterval<T> {
    if iv is Empty {
        iv
    } else {
        RawInterval::new_spec(settled_lower(iv.lower_spec()), settled_upper(iv.upper_spec()))
    }
}

/// Returns the interval with each excluded endpoint replaced by the included
/// point next to it, where the type tells that point: the normal form in
/// which intervals enter a selection. It holds the same points.
pub fn settle<T: NextLower + NextUpper>(iv: RawInterval<T>) -> (r: RawInterval<T>)
    requires
        ordered::<T>(),
        iv.wf(),
    ensures
        r == settled(iv),
        r.wf(),
        forall|p: T| #[trigger] r.contains_spec(p) == iv.contains_spec(p),
{
    if iv.is_empty() {
        return iv;
    }
    proof {
        lemma_order::<T>();
        lemma_contains_bounds(iv);
    }
    let lower = match iv.lower_bound().unwrap() {
        Bound::Exclude(v) => match v.next_upper() {
            Some(w) => Bound::Include(w),
            None => Bound::Exclude(v),
        },
        b => b,
    };
    let upper = match iv.upper_bound().unwrap() {
        Bound::Exclude(v) => match v.next_lower() {
            Some(u) => Bound::Include(u),
            None => Bound::Exclude(v),
        },
        b => b,
    };
    let r = RawInterval::new(lower, upper);
    proof {
        assert forall|p: T| #[trigger] r.contains_spec(p) == iv.contains_spec(p) by {
            assert(lower_admits(lower, p) == lower_admits(iv.lower_spec(), p));
            assert(upper_admits(upper, p) == upper_admits(iv.upper_spec(), p));
        }
    }
    r
}

/// A lower bound that includes its point, moved one step down where the
/// type tells the point right below and the run selects it.
pub open spec fn widen_lower_in<T: NextLower + NextUpper>(s: Seq<Tine<T>>, b: Bound<T>) -> Bound<T> {
    match b {
        Bound::Include(v) => match v.next_lower_spec() {
            Some(u) => if selects(s, u) {
                Bound::Include(u)
            } else {
                b
            },
            None => b,
        },
        _ => b,
    }
}

/// An upper bound that includes its point, moved one step up where the
/// type tells the point right above and the run selects it.
pub open spec fn widen_upper_in<T: NextLower + NextUpper>(s: Seq<Tine<T>>, b: Bound<T>) -> Bound<T> {
    match b {
        Bound::Include(v) => match v.next_upper_spec() {
            Some(w) => if selects(s, w) {
                Bound::Include(w)
            } else {
                b
            },
            None => b,
        },
        _ => b,
    }
}

/// The interval widened on each side where it abuts a point the run
/// selects.
pub open spec fn widened_in<T: NextLower + NextUpper>(s: Seq<Tine<T>>, iv: RawInterval<T>) -> RawInterval<T> {
    if iv is Empty {
        iv
    } else {
        RawInterval::new_spec(widen_lower_in(s, iv.lower_spec()), widen_upper_in(s, iv.upper_spec()))
    }
}

/// The run after inserting an interval: it is settled and widened; nothing
/// changes where it is then empty, or a single point already selected;
/// else its tines are merged into the run.
pub open spec fn inserted<T: NextLower + NextUpper>(s: Seq<Tine<T>>, iv: RawInterval<T>) -> Seq<Tine<T>> {
    let w = widened_in(s, settled(iv));
    if w is Empty {
        s
    } else if degenerate(w) && selects(s, bound_point(w.lower_spec())) {
        s
    } else {
        merged_run(s, interval_tines(w), Combine::Union)
    }
}

/// The run after inserting the intervals one by one, in order.
pub open spec fn inserted_all<T: NextLower + NextUpper>(s: Seq<Tine<T>>, ivs: Seq<RawInterval<T>>) -> Seq<Tine<T>>
    decreases ivs.len(),
{
    if ivs.len() == 0 {
        s
    } else {
        inserted(inserted_all(s, ivs.drop_last()), ivs.last())
    }
}

/// The run rebuilt by inserting, into an empty run, the intervals the run
/// starts.
pub open spec fn resettled_run<T: NextLower + NextUpper>(s: Seq<Tine<T>>) -> Seq<Tine<T>> {
    inserted_all(seq![], started(s, s.len() as int))
}

/// The run of the points a run does not select.
pub open spec fn complement_run<T: NextLower + NextUpper>(s: Seq<Tine<T>>) -> Seq<Tine<T>> {
    resettled_run(merged_run(full_tines(), s, Combine::Difference))
}

/// The run of the points `a` selects and `b` does not: the complement of
/// `b` intersected with `a`.
pub open spec fn minus_run<T: NextLower + NextUpper>(a: Seq<Tine<T>>, b: Seq<Tine<T>>) -> Seq<Tine<T>> {
    resettled_run(merged_run(complement_run(b), a, Combine::Intersect))
}

/// Point tines at the finite points of the run's tines, in order.
pub open spec fn closure_points<T>(s: Seq<Tine<T>>) -> Seq<Tine<T>>
    decreases s.len(),
{
    if s.len() == 0 {
        seq![]
    } else if s.last().point is Some {
        closure_points(s.drop_last()).push(point_tine(s.last().point->0))
    } else {
        closure_points(s.drop_last())
    }
}

/// The tines of a selection, kept in ascending order.
pub struct TineSet<T>(Vec<Tine<T>>);

impl<T: Ord + Copy> TineSet<T> {
    /// The tines, in order.
    pub closed spec fn tines(&self) -> Seq<Tine<T>> {
        self.0@
    }

    /// The tines are well formed.
    pub open spec fn wf(&self) -> bool {
        tines_wf(self.tines())
    }

    /// Whether the selection holds `p`.
    pub open spec fn contains_spec(&self, p: T) -> bool {
        selects(self.tines(), p)
    }
}

impl<T: Ord + Copy> View for TineSet<T> {
    type V = Set<T>;

    /// The set of selected points.
    open spec fn view(&self) -> Set<T> {
        Set::new(|p: T| self.contains_spec(p))
    }
}

impl<T: NextLower + NextUpper> TineSet<T> {
    /// Returns an empty selection.
    pub fn new() -> (r: Self)
        ensures
            r.wf(),
            r.tines() == Seq::<Tine<T>>::empty(),
            forall|p: T| !#[trigger] r.contains_spec(p),
    {
        let r = TineSet(Vec::new());
        proof {
            assert(r.tines() =~= Seq::<Tine<T>>::empty());
        }
        r
    }

    /// Returns a copy of the selection.
    fn duplicate(&self) -> (r: Self)
        ensures
            r.tines() == self.tines(),
    {
        let mut v: Vec<Tine<T>> = Vec::new();
        let mut k: usize = 0;
        while k < self.0.len()
            invariant
                k <= self.0@.len(),
                v@ == self.0@.take(k as int),
            decreases self.0@.len() - k,
        {
            v.push(self.0[k]);
            k = k + 1;
            proof {
                assert(v@ =~= self.0@.take(k as int));
            }
        }
        proof {
            assert(self.0@.take(k as int) =~= self.0@);
        }
        TineSet(v)
    }

    /// Returns whether the given point is selected.
    pub fn contains_pt(&self, point: &T) -> (r: bool)
        requires
            ordered::<T>(),
            self.wf(),
        ensures
            r == self.contains_spec(*point),
    {
        let n = self.0.len();
        let mut k: usize = 0;
        while k < n
            invariant
                ordered::<T>(),
                n == self.0@.len(),
                k <= n,
                forall|m: int| 0 <= m < k ==> below(#[trigger] self.0@[m], *point),
            ensures
                k <= n,
                forall|m: int| 0 <= m < k ==> below(#[trigger] self.0@[m], *point),
                k < n ==> !below(self.0@[k as int], *point),
            decreases n - k,
        {
            if !tine_below(&self.0[k], point) {
                break;
            }
            k = k + 1;
        }
        proof {
            lemma_places::<T>();
        }
        if k < n {
            let at = match &self.0[k].point {
                Some(v) => matches!(compare(v, point), Ordering::Equal),
                None => false,
            };
            if at {
                proof {
                    lemma_at(self.0@, k as int, *point);
                }
                return self.0[k].incl;
            }
        }
        proof {
            if k < n {
                assert(above(self.0@[k as int], *point));
            }
            if k > 0 {
                assert(below(self.0@[k - 1], *point));
            }
            lemma_region(self.0@, k as int, *point);
        }
        k > 0 && self.0[k - 1].lb
    }

    /// A lower bound that includes its point, moved one step down where the
    /// type tells the point right below and the selection holds it.
    pub open spec fn widened_lower(&self, b: Bound<T>) -> Bound<T> {
        widen_lower_in(self.tines(), b)
    }

    /// An upper bound that includes its point, moved one step up where the
    /// type tells the point right above and the selection holds it.
    pub open spec fn widened_upper(&self, b: Bound<T>) -> Bound<T> {
        widen_upper_in(self.tines(), b)
    }

    /// Widens a lower bound that includes its point one step down, where the
    /// point right below is already selected; merging then joins the two.
    fn widen_l(&self, lower: Bound<T>) -> (r: Bound<T>)
        requires
            ordered::<T>(),
            self.wf(),
        ensures
            r == self.widened_lower(lower),
            forall|p: T| lower_admits(lower, p) ==> #[trigger] lower_admits(r, p),
            forall|p: T| #[trigger] lower_admits(r, p) ==> lower_admits(lower, p) || self.contains_spec(p),
    {
        proof {
            lemma_order::<T>();
        }
        match lower {
            Bound::Include(v) => match v.next_lower() {
                Some(u) => if self.contains_pt(&u) {
                    Bound::Include(u)
                } else {
                    lower
                },
                None => lower,
            },
            _ => lower,
        }
    }

    /// Widens an upper bound that includes its point one step up, where the
    /// point right above is already selected; merging then joins the two.
    fn widen_r(&self, upper: Bound<T>) -> (r: Bound<T>)
        requires
            ordered::<T>(),
            self.wf(),
        ensures
            r == self.widened_upper(upper),
            forall|p: T| upper_admits(upper, p) ==> #[trigger] upper_admits(r, p),
            forall|p: T| #[trigger] upper_admits(r, p) ==> upper_admits(upper, p) || self.contains_spec(p),
    {
        proof {
            lemma_order::<T>();
        }
        match upper {
            Bound::Include(v) => match v.next_upper() {
                Some(w) => if self.contains_pt(&w) {
                    Bound::Include(w)
                } else {
                    upper
                },
                None => upper,
            },
            _ => upper,
        }
    }

    /// Widens an interval on each side where it abuts a selected point, so
    /// that inserting it joins what it touches; a point that widens becomes
    /// an ordinary interval.
    fn widen(&self, interval: RawInterval<T>) -> (r: RawInterval<T>)
        requires
            ordered::<T>(),
            self.wf(),
            interval.wf(),
        ensures
            interval is Empty ==> r == interval,
            !(interval is Empty) ==> r == RawInterval::new_spec(
                self.widened_lower(interval.lower_spec()),
                self.widened_upper(interval.upper_spec()),
            ),
            r.wf(),
            forall|p: T| interval.contains_spec(p) ==> #[trigger] r.contains_spec(p),
            forall|p: T| #[trigger] r.contains_spec(p) ==> interval.contains_spec(p) || self.contains_spec(p),
    {
        if interval.is_empty() {
            return interval;
        }
        proof {
            lemma_contains_bounds(interval);
        }
        let lower = self.widen_l(interval.lower_bound().unwrap());
        let upper = self.widen_r(interval.upper_bound().unwrap());
        let r = RawInterval::new(lower, upper);
        proof {
            assert forall|p: T| #[trigger] r.contains_spec(p) implies interval.contains_spec(p)
                || self.contains_spec(p) by {
                assert(lower_admits(lower, p) && upper_admits(upper, p));
            }
        }
        r
    }

    /// Inserts the tine of a single point.
    fn union_pt(&mut self, tine: Tine<T>)
        requires
            ordered::<T>(),
            old(self).wf(),
            tine.point is Some,
            tine == point_tine(tine.point->0),
        ensures
            final(self).wf(),
            forall|p: T| #[trigger] final(self).contains_spec(p) == (old(self).contains_spec(p)
                || p == tine.point->0),
            old(self).contains_spec(tine.point->0) ==> *final(self) == *old(self),
            !old(self).contains_spec(tine.point->0) ==> final(self).tines() == merged_run(
                old(self).tines(),
                seq![tine],
                Combine::Union,
            ),
    {
        proof {
            lemma_places::<T>();
            assert(sorted(seq![tine]));
            assert forall|p: T| #[trigger] selects(seq![tine], p) == (p == tine.point->0) by {
                if p == tine.point->0 {
                    lemma_at(seq![tine], 0, p);
                } else {
                    let k = lemma_split(seq![tine], p);
                    if k == 0 {
                        assert(above(seq![tine][0], p));
                    }
                    lemma_region(seq![tine], k, p);
                }
            }
        }
        if let Some(v) = tine.point {
            if self.contains_pt(&v) {
                return;
            }
        }
        let pt = vec![tine];
        proof {
            assert(pt@ =~= seq![tine]);
        }
        let merged = combine(&self.0, &pt, Combine::Union);
        self.0 = merged;
    }

    /// Inserts the two tines of an interval.
    fn union_normal(&mut self, l_tine: Tine<T>, r_tine: Tine<T>)
        requires
            ordered::<T>(),
            old(self).wf(),
            tines_wf(seq![l_tine, r_tine]),
        ensures
            final(self).wf(),
            forall|p: T| #[trigger] final(self).contains_spec(p) == (old(self).contains_spec(p)
                || selects(seq![l_tine, r_tine], p)),
            final(self).tines() == merged_run(old(self).tines(), seq![l_tine, r_tine], Combine::Union),
    {
        let pair = vec![l_tine, r_tine];
        proof {
            assert(pair@ =~= seq![l_tine, r_tine]);
        }
        let merged = combine(&self.0, &pair, Combine::Union);
        self.0 = merged;
    }

    /// Inserts every point of the given interval.
    pub fn union_interval(&mut self, interval: RawInterval<T>)
        requires
            ordered::<T>(),
            old(self).wf(),
            interval.wf(),
        ensures
            final(self).tines() == inserted(old(self).tines(), interval),
            final(self).wf(),
            forall|p: T| #[trigger] final(self).contains_spec(p) == (old(self).contains_spec(p)
                || interval.contains_spec(p)),
    {
        let settled = settle(interval);
        if settled.is_empty() {
            proof {
                assert forall|p: T| !interval.contains_spec(p) by {
                    assert(settled.contains_spec(p) == interval.contains_spec(p));
                }
            }
            return;
        }
        let widened = self.widen(settled);
        let ghost before = *self;
        proof {
            lemma_interval_tines(widened);
        }
        match Tine::from_interval(widened) {
            Split::Zero => {},
            Split::One(pt) => {
                proof {
                    assert(seq![pt] =~= interval_tines(widened));
                    assert(seq![pt][0] == pt);
                    assert(selects(seq![pt], pt.point->0) == widened.contains_spec(pt.point->0));
                    assert(degenerate(widened));
                }
                self.union_pt(pt);
            },
            Split::Two(lb, ub) => {
                proof {
                    assert(seq![lb, ub] =~= interval_tines(widened));
                    assert(!degenerate(widened));
                }
                self.union_normal(lb, ub);
            },
        }
        proof {
            assert forall|p: T| #[trigger] self.contains_spec(p) == (before.contains_spec(p)
                || interval.contains_spec(p)) by {
                assert(settled.contains_spec(p) == interval.contains_spec(p));
                assert(selects(interval_tines(widened), p) == widened.contains_spec(p));
                if widened is Empty {
                    assert(!widened.contains_spec(p));
                    assert(self.tines() == before.tines());
                }
            }
        }
    }

    /// Returns the same points, rebuilt by inserting its intervals one by
    /// one, so that each is settled and joined to its neighbours as on
    /// insertion.
    fn resettled(&self) -> (r: Self)
        requires
            ordered::<T>(),
            self.wf(),
        ensures
            r.tines() == resettled_run(self.tines()),
            r.wf(),
            forall|p: T| #[trigger] r.contains_spec(p) == self.contains_spec(p),
    {
        Self::from_intervals(self.iter())
    }

    /// Returns the selection of every point of the given intervals.
    pub fn from_intervals(intervals: Vec<RawInterval<T>>) -> (r: Self)
        requires
            ordered::<T>(),
            all_wf(intervals@),
        ensures
            r.tines() == inserted_all(seq![], intervals@),
            r.wf(),
            forall|p: T| #[trigger] r.contains_spec(p) == seq_contains(intervals@, p),
    {
        let mut dm = Self::new();
        let mut k: usize = 0;
        while k < intervals.len()
            invariant
                ordered::<T>(),
                all_wf(intervals@),
                k <= intervals@.len(),
                dm.wf(),
                dm.tines() == inserted_all(seq![], intervals@.take(k as int)),
                forall|p: T| #[trigger] dm.contains_spec(p) == seq_contains(intervals@.take(k as int), p),
            decreases intervals@.len() - k,
        {
            proof {
                assert(intervals@.take(k + 1) =~= intervals@.take(k as int).push(intervals@[k as int]));
                assert(intervals@.take(k + 1).drop_last() =~= intervals@.take(k as int));
                lemma_seq_contains_push(intervals@.take(k as int), intervals@[k as int]);
            }
            dm.union_interval(intervals[k]);
            k = k + 1;
        }
        proof {
            assert(intervals@.take(k as int) =~= intervals@);
        }
        dm
    }

    /// Returns the intervals of the selection in ascending order.
    pub fn iter(&self) -> (r: Vec<RawInterval<T>>)
        requires
            ordered::<T>(),
            self.wf(),
        ensures
            r@ == started(self.tines(), self.tines().len() as int),
            all_wf(r@),
            forall|i: int| 0 <= i < r@.len() ==> !(#[trigger] r@[i] is Empty),
            forall|p: T| #[trigger] seq_contains(r@, p) == self.contains_spec(p),
            forall|i: int, j: int| 0 <= i < j < r@.len() ==> apart(#[trigger] r@[i], #[trigger] r@[j]),
    {
        let ghost s = self.0@;
        let n = self.0.len();
        let mut r: Vec<RawInterval<T>> = Vec::new();
        let mut k: usize = 0;
        let ghost mut src: Seq<int> = Seq::empty();
        while k < n
            invariant
                ordered::<T>(),
                s == self.0@,
                tines_wf(s),
                n == s.len(),
                k <= n,
                all_wf(r@),
                src.len() == r@.len(),
                r@ == started(s, k as int),
                forall|i: int| 0 <= i < r@.len() ==> !(#[trigger] r@[i] is Empty),
                forall|q: int| 0 <= q < src.len() ==> 0 <= #[trigger] src[q] < k && starts(s, src[q])
                    && r@[q] == tine_interval(s, src[q]),
                forall|q1: int, q2: int| 0 <= q1 < q2 < src.len() ==> #[trigger] src[q1] < #[trigger] src[q2],
                forall|p: T| #[trigger] seq_contains(r@, p) == exists|m: int|
                    0 <= m < k && (#[trigger] tine_interval(s, m)).contains_spec(p),
            decreases n - k,
        {
            let t = self.0[k];
            let ghost old_r = r@;
            let iv = if t.is_point() {
                Some(RawInterval::Point(t.point.unwrap()))
            } else if t.lb && k + 1 < n {
                Some(RawInterval::new(bound_lower(&t), bound_upper(&self.0[k + 1])))
            } else {
                None
            };
            if let Some(iv) = iv {
                r.push(iv);
            }
            proof {
                if let Some(iv) = iv {
                    lemma_started_nonempty(s, k as int);
                    lemma_seq_contains_push(old_r, iv);
                    assert(iv == tine_interval(s, k as int));
                    src = src.push(k as int);
                    assert(r@[old_r.len() as int] == iv);
                    assert forall|q: int| 0 <= q < old_r.len() implies r@[q] == old_r[q] by {}
                }
                assert forall|p: T| #[trigger] seq_contains(r@, p) == exists|m: int|
                    0 <= m < k + 1 && (#[trigger] tine_interval(s, m)).contains_spec(p) by {
                    if exists|m: int| 0 <= m < k + 1 && (#[trigger] tine_interval(s, m)).contains_spec(p) {
                        let m = choose|m: int| 0 <= m < k + 1 && (#[trigger] tine_interval(s, m)).contains_spec(p);
                        if m < k {
                            assert(exists|m: int| 0 <= m < k && (#[trigger] tine_interval(s, m)).contains_spec(p));
                        }
                    }
                    if exists|m: int| 0 <= m < k && (#[trigger] tine_interval(s, m)).contains_spec(p) {
                        let m = choose|m: int| 0 <= m < k && (#[trigger] tine_interval(s, m)).contains_spec(p);
                        assert(0 <= m < k + 1);
                    }
                }
            }
            k = k + 1;
        }
        proof {
            assert forall|p: T| #[trigger] seq_contains(r@, p) == self.contains_spec(p) by {
                lemma_iter_faithful(s, p);
            }
            assert forall|i: int, j: int| 0 <= i < j < r@.len() implies apart(#[trigger] r@[i], #[trigger] r@[j]) by {
                assert(src[i] < src[j]);
                lemma_tine_intervals_apart(s, src[i], src[j]);
            }
        }
        r
    }

    /// Returns whether no tine stands at an infinite end.
    pub fn is_bounded(&self) -> (r: bool)
        requires
            ordered::<T>(),
            self.wf(),
        ensures
            r == forall|k: int| 0 <= k < self.tines().len() ==> (#[trigger] self.tines()[k]).point is Some,
    {
        let n = self.0.len();
        proof {
            lemma_places::<T>();
            if n > 0 {
                assert forall|k: int| 0 <= k < n && (#[trigger] self.0@[k]).point is None implies k == 0 || k == n - 1 by {
                    if 0 < k < n - 1 {
                        assert(tine_lt(self.0@[0], self.0@[k]));
                        assert(tine_lt(self.0@[k], self.0@[n - 1]));
                    }
                }
            }
        }
        n == 0 || (self.0[0].point.is_some() && self.0[n - 1].point.is_some())
    }

    /// Returns the lower bound of the selection: `None` where it is empty.
    pub fn lower_bound(&self) -> (r: Option<Bound<T>>)
        requires
            ordered::<T>(),
            self.wf(),
        ensures
            r == (if self.tines().len() == 0 { None } else { Some(lower_of(self.tines()[0])) }),
            forall|p: T| #[trigger] self.contains_spec(p) ==> (r matches Some(b) && lower_admits(b, p)),
    {
        proof {
            lemma_bounds_admit(self.0@);
        }
        if self.0.len() == 0 {
            None
        } else {
            Some(bound_lower(&self.0[0]))
        }
    }

    /// Returns the upper bound of the selection: `None` where it is empty.
    pub fn upper_bound(&self) -> (r: Option<Bound<T>>)
        requires
            ordered::<T>(),
            self.wf(),
        ensures
            r == (if self.tines().len() == 0 {
                None
            } else {
                Some(upper_of(self.tines()[self.tines().len() - 1]))
            }),
            forall|p: T| #[trigger] self.contains_spec(p) ==> (r matches Some(b) && upper_admits(b, p)),
    {
        proof {
            lemma_bounds_admit(self.0@);
        }
        let n = self.0.len();
        if n == 0 {
            None
        } else {
            Some(bound_upper(&self.0[n - 1]))
        }
    }

    /// Returns the point of the lower bound, where there is one.
    pub fn infimum(&self) -> (r: Option<T>)
        requires
            ordered::<T>(),
            self.wf(),
        ensures
            r == (if self.tines().len() == 0 { None } else { self.tines()[0].point }),
    {
        match self.lower_bound() {
            Some(Bound::Include(v)) => Some(v),
            Some(Bound::Exclude(v)) => Some(v),
            _ => None,
        }
    }

    /// Returns the point of the upper bound, where there is one.
    pub fn supremum(&self) -> (r: Option<T>)
        requires
            ordered::<T>(),
            self.wf(),
        ensures
            r == (if self.tines().len() == 0 {
                None
            } else {
                self.tines()[self.tines().len() - 1].point
            }),
    {
        match self.upper_bound() {
            Some(Bound::Include(v)) => Some(v),
            Some(Bound::Exclude(v)) => Some(v),
            _ => None,
        }
    }

    /// Returns the least interval holding every selected point.
    pub fn enclosing_interval(&self) -> (r: RawInterval<T>)
        requires
            ordered::<T>(),
            self.wf(),
        ensures
            r.wf(),
            r == (if self.tines().len() == 0 {
                RawInterval::Empty
            } else {
                RawInterval::new_spec(
                    lower_of(self.tines()[0]),
                    upper_of(self.tines()[self.tines().len() - 1]),
                )
            }),
            forall|p: T| self.contains_spec(p) ==> #[trigger] r.contains_spec(p),
    {
        match (self.lower_bound(), self.upper_bound()) {
            (Some(l), Some(u)) => RawInterval::new(l, u),
            _ => RawInterval::Empty,
        }
    }

    /// Returns the selection of the points of both selections.
    pub fn intersect(&self, other: &Self) -> (r: Self)
        requires
            ordered::<T>(),
            self.wf(),
            other.wf(),
        ensures
            r.tines() == resettled_run(merged_run(self.tines(), other.tines(), Combine::Intersect)),
            r.wf(),
            forall|p: T| #[trigger] r.contains_spec(p) == (self.contains_spec(p) && other.contains_spec(p)),
    {
        TineSet(combine(&self.0, &other.0, Combine::Intersect)).resettled()
    }

    /// Returns the selection of the points of either selection.
    pub fn union(&self, other: &Self) -> (r: Self)
        requires
            ordered::<T>(),
            self.wf(),
            other.wf(),
        ensures
            r.tines() == inserted_all(self.tines(), started(other.tines(), other.tines().len() as int)),
            r.wf(),
            forall|p: T| #[trigger] r.contains_spec(p) == (self.contains_spec(p) || other.contains_spec(p)),
    {
        let mut union = self.duplicate();
        let intervals = other.iter();
        let mut k: usize = 0;
        while k < intervals.len()
            invariant
                ordered::<T>(),
                all_wf(intervals@),
                k <= intervals@.len(),
                union.wf(),
                union.tines() == inserted_all(self.tines(), intervals@.take(k as int)),
                forall|p: T| #[trigger] union.contains_spec(p) == (self.contains_spec(p)
                    || seq_contains(intervals@.take(k as int), p)),
            decreases intervals@.len() - k,
        {
            proof {
                assert(intervals@.take(k + 1) =~= intervals@.take(k as int).push(intervals@[k as int]));
                assert(intervals@.take(k + 1).drop_last() =~= intervals@.take(k as int));
                lemma_seq_contains_push(intervals@.take(k as int), intervals@[k as int]);
            }
            union.union_interval(intervals[k]);
            k = k + 1;
        }
        proof {
            assert(intervals@.take(k as int) =~= intervals@);
            assert(intervals@.take(0) =~= Seq::<RawInterval<T>>::empty());
        }
        union
    }

    /// Returns the selection of the points that this one does not hold.
    pub fn complement(&self) -> (r: Self)
        requires
            ordered::<T>(),
            self.wf(),
        ensures
            r.tines() == complement_run(self.tines()),
            r.wf(),
            forall|p: T| #[trigger] r.contains_spec(p) == !self.contains_spec(p),
    {
        let full = vec![
            Tine { point: None, lb: true, ub: false, incl: false },
            Tine { point: None, lb: false, ub: true, incl: false },
        ];
        proof {
            lemma_places::<T>();
            assert(tine_lt(full@[0], full@[1]));
            assert(linked(full@, 0));
            assert(tines_wf(full@));
            assert(full@ =~= full_tines::<T>());
            assert forall|p: T| #[trigger] selects(full@, p) by {
                lemma_region(full@, 1, p);
            }
        }
        TineSet(combine(&full, &self.0, Combine::Difference)).resettled()
    }

    /// Returns the selection of the points of this selection that the other
    /// does not hold.
    pub fn minus(&self, other: &Self) -> (r: Self)
        requires
            ordered::<T>(),
            self.wf(),
            other.wf(),
        ensures
            r.tines() == minus_run(self.tines(), other.tines()),
            r.wf(),
            forall|p: T| #[trigger] r.contains_spec(p) == (self.contains_spec(p) && !other.contains_spec(p)),
    {
        other.complement().intersect(self)
    }

    /// Returns whether the selection holds every point of the interval: no
    /// tine remains once the selection is taken from the interval. Over a
    /// dense order this is exactly whether every point is held.
    pub fn contains_interval(&self, interval: &RawInterval<T>) -> (r: bool)
        requires
            ordered::<T>(),
            self.wf(),
            interval.wf(),
        ensures
            r == (minus_run(inserted(seq![], *interval), self.tines()).len() == 0),
            r ==> forall|p: T| interval.contains_spec(p) ==> #[trigger] self.contains_spec(p),
            dense::<T>() ==> (r <==> forall|p: T|
                interval.contains_spec(p) ==> #[trigger] self.contains_spec(p)),
    {
        let mut single = Self::new();
        single.union_interval(*interval);
        let rest = single.minus(self);
        let r = rest.0.len() == 0;
        proof {
            if r {
                assert forall|p: T| interval.contains_spec(p) implies #[trigger] self.contains_spec(p) by {
                    lemma_region(rest.0@, 0, p);
                    assert(!rest.contains_spec(p));
                }
            } else if dense::<T>() {
                let p = lemma_nonempty_selects(rest.0@);
                assert(rest.contains_spec(p));
                assert(interval.contains_spec(p) && !self.contains_spec(p));
            }
        }
        r
    }

    /// Returns the least closed selection holding this one: every finite
    /// tine's point is selected too.
    pub fn closure(&self) -> (r: Self)
        requires
            ordered::<T>(),
            self.wf(),
        ensures
            r.tines() == resettled_run(merged_run(self.tines(), closure_points(self.tines()), Combine::Union)),
            r.wf(),
            forall|p: T| #[trigger] r.contains_spec(p) == (self.contains_spec(p) || point_among(
                self.tines(),
                self.tines().len() as int,
                p,
            )),
    {
        let ghost s = self.0@;
        let n = self.0.len();
        let mut pts: Vec<Tine<T>> = Vec::new();
        let mut k: usize = 0;
        proof {
            lemma_places::<T>();
        }
        while k < n
            invariant
                ordered::<T>(),
                s == self.0@,
                tines_wf(s),
                n == s.len(),
                k <= n,
                tines_wf(pts@),
                pts@ == closure_points(s.take(k as int)),
                forall|i: int| 0 <= i < pts@.len() ==> (#[trigger] pts@[i]) == point_tine(pts@[i].point->0) && pts@[i].point is Some,
                forall|i: int| 0 <= i < pts@.len() && k < n ==> tine_lt(#[trigger] pts@[i], s[k as int]),
                forall|p: T| #[trigger] point_among(pts@, pts@.len() as int, p) == point_among(s, k as int, p),
            decreases n - k,
        {
            let t = self.0[k];
            let ghost old_pts = pts@;
            if let Some(v) = t.point {
                pts.push(Tine { point: Some(v), lb: false, ub: false, incl: true });
            }
            proof {
                assert(s.take(k + 1).drop_last() =~= s.take(k as int));
                assert(s.take(k + 1).last() == t);
                lemma_places::<T>();
                assert forall|i: int| 0 <= i < old_pts.len() implies #[trigger] pts@[i] == old_pts[i] by {}
                if t.point is Some {
                    let last = old_pts.len() as int;
                    assert(pts@[last] == point_tine(t.point->0));
                    assert forall|x: int, y: int| 0 <= x < y < pts@.len() implies #[trigger] tine_lt(pts@[x], pts@[y]) by {
                        if y == last {
                            assert(tine_lt(old_pts[x], s[k as int]));
                        } else {
                            assert(tine_lt(old_pts[x], old_pts[y]));
                        }
                    }
                    assert forall|i: int| 0 <= i < pts@.len() - 1 implies #[trigger] linked(pts@, i) by {
                        assert(pts@[i + 1] == point_tine(pts@[i + 1].point->0));
                    }
                }
                if k + 1 < n {
                    assert(tine_lt(s[k as int], s[k + 1]));
                    assert forall|i: int| 0 <= i < pts@.len() implies tine_lt(#[trigger] pts@[i], s[k + 1]) by {
                        if i < old_pts.len() {
                            assert(tine_lt(old_pts[i], s[k as int]));
                            assert(tine_lt(old_pts[i], s[k + 1]));
                            assert(pts@[i] == old_pts[i]);
                        } else {
                            assert(pts@[i] == point_tine(t.point->0));
                            assert(same_place(s[k as int], pts@[i]));
                            assert(tine_lt(s[k as int], s[k + 1]));
                        }
                    }
                }
                assert forall|p: T| #[trigger] point_among(pts@, pts@.len() as int, p) == point_among(s, k + 1, p) by {
                    assert(point_among(old_pts, old_pts.len() as int, p) == point_among(s, k as int, p));
                    if exists|i: int| 0 <= i < pts@.len() && (#[trigger] pts@[i]).point == Some(p) {
                        let i = choose|i: int| 0 <= i < pts@.len() && (#[trigger] pts@[i]).point == Some(p);
                        if i < old_pts.len() {
                            assert(old_pts[i].point == Some(p));
                        } else {
                            assert(s[k as int].point == Some(p));
                        }
                    }
                    if exists|m: int| 0 <= m < k + 1 && (#[trigger] s[m]).point == Some(p) {
                        let m = choose|m: int| 0 <= m < k + 1 && (#[trigger] s[m]).point == Some(p);
                        if m < k {
                            assert(point_among(s, k as int, p));
                            let i = choose|i: int| 0 <= i < old_pts.len() && (#[trigger] old_pts[i]).point == Some(p);
                            assert(pts@[i].point == Some(p));
                        } else {
                            assert(pts@[old_pts.len() as int].point == Some(p));
                        }
                    }
                }
            }
            k = k + 1;
        }
        proof {
            assert forall|p: T| #[trigger] selects(pts@, p) == point_among(pts@, pts@.len() as int, p) by {
                let j = lemma_split(pts@, p);
                if j < pts@.len() && pts@[j].point == Some(p) {
                    lemma_at(pts@, j, p);
                } else {
                    if j < pts@.len() {
                        assert(above(pts@[j], p));
                    }
                    if j > 0 {
                        assert(pts@[j - 1] == point_tine(pts@[j - 1].point->0));
                    }
                    lemma_region(pts@, j, p);
                    assert forall|i: int| 0 <= i < pts@.len() implies (#[trigger] pts@[i]).point != Some(p) by {
                        if i < j {
                            assert(below(pts@[i], p));
                        } else {
                            assert(!below(pts@[i], p));
                            if i > j {
                                assert(tine_lt(pts@[j], pts@[i]));
                            }
                        }
                    }
                }
            }
        }
        proof {
            assert(s.take(n as int) =~= s);
        }
        TineSet(combine(&self.0, &pts, Combine::Union)).resettled()
    }

    /// Removes every point outside the given interval.
    pub fn intersect_interval(&mut self, interval: &RawInterval<T>)
        requires
            ordered::<T>(),
            old(self).wf(),
            interval.wf(),
        ensures
            final(self).tines() == resettled_run(
                merged_run(old(self).tines(), inserted(seq![], *interval), Combine::Intersect),
            ),
            final(self).wf(),
            forall|p: T| #[trigger] final(self).contains_spec(p) == (old(self).contains_spec(p)
                && interval.contains_spec(p)),
    {
        let mut single = Self::new();
        single.union_interval(*interval);
        let r = self.intersect(&single);
        *self = r;
    }
}

/// A selection: a finite union of intervals of points of `T`, kept in an
/// ascending run of tines built by settled, widened insertion.
pub struct Selection<T>(TineSet<T>);

impl<T: Ord + Copy> Selection<T> {
    /// The tines are well formed.
    pub closed spec fn wf(&self) -> bool {
        self.0.wf()
    }

    /// Whether the selection holds `p`.
    pub closed spec fn contains_spec(&self, p: T) -> bool {
        self.0.contains_spec(p)
    }

    /// The run of tines.
    pub closed spec fn tines(&self) -> Seq<Tine<T>> {
        self.0.tines()
    }
}

impl<T: Ord + Copy> View for Selection<T> {
    type V = Set<T>;

    /// The set of selected points.
    open spec fn view(&self) -> Set<T> {
        Set::new(|p: T| self.contains_spec(p))
    }
}

/// The run of tines of the full selection.
pub open spec fn full_tines<T>() -> Seq<Tine<T>> {
    seq![
        Tine { point: None, lb: true, ub: false, incl: false },
        Tine { point: None, lb: false, ub: true, incl: false },
    ]
}

impl<T: NextLower + NextUpper> Selection<T> {
    /// Returns the empty selection.
    pub fn empty() -> (r: Self)
        ensures
            r.wf(),
            r@ == Set::<T>::empty(),
            r.tines() == Seq::<Tine<T>>::empty(),
    {
        let r = Selection(TineSet::new());
        proof {
            assert(r@ =~= Set::<T>::empty());
        }
        r
    }

    /// Returns the selection of every point of the given intervals.
    pub fn from_intervals(intervals: Vec<RawInterval<T>>) -> (r: Self)
        requires
            ordered::<T>(),
            all_wf(intervals@),
        ensures
            r.tines() == inserted_all(seq![], intervals@),
            r.wf(),
            forall|p: T| #[trigger] r@.contains(p) == seq_contains(intervals@, p),
    {
        Selection(TineSet::from_intervals(intervals))
    }

    /// Returns the intervals of the selection in ascending order.
    pub fn iter(&self) -> (r: Vec<RawInterval<T>>)
        requires
            ordered::<T>(),
            self.wf(),
        ensures
            r@ == started(self.tines(), self.tines().len() as int),
            all_wf(r@),
            forall|i: int| 0 <= i < r@.len() ==> !(#[trigger] r@[i] is Empty),
            forall|p: T| #[trigger] seq_contains(r@, p) == self@.contains(p),
            forall|i: int, j: int| 0 <= i < j < r@.len() ==> apart(#[trigger] r@[i], #[trigger] r@[j]),
    {
        self.0.iter()
    }

    /// Returns whether the selection is the full one, made of its two
    /// infinite tines.
    pub fn is_full(&self) -> (r: bool)
        requires
            ordered::<T>(),
            self.wf(),
        ensures
            r == (self.tines() == full_tines::<T>()),
            r ==> self@ == Set::<T>::full(),
    {
        let v = &self.0.0;
        let r = v.len() == 2 && v[0].point.is_none() && v[1].point.is_none();
        proof {
            lemma_places::<T>();
            let s = v@;
            if r {
                assert(tine_lt(s[0], s[1]));
                assert(s =~= full_tines::<T>());
                assert forall|p: T| #[trigger] self@.contains(p) by {
                    lemma_region(s, 1, p);
                }
                assert(self@ =~= Set::<T>::full());
            }
        }
        r
    }

    /// Returns whether no tine stands at an infinite end.
    pub fn is_bounded(&self) -> (r: bool)
        requires
            ordered::<T>(),
            self.wf(),
        ensures
            r == forall|k: int| 0 <= k < self.tines().len() ==> (#[trigger] self.tines()[k]).point is Some,
    {
        self.0.is_bounded()
    }

    /// Returns the lower bound of the selection: `None` where it is empty.
    pub fn lower_bound(&self) -> (r: Option<Bound<T>>)
        requires
            ordered::<T>(),
            self.wf(),
        ensures
            r == (if self.tines().len() == 0 { None } else { Some(lower_of(self.tines()[0])) }),
            forall|p: T| #[trigger] self@.contains(p) ==> (r matches Some(b) && lower_admits(b, p)),
    {
        self.0.lower_bound()
    }

    /// Returns the upper bound of the selection: `None` where it is empty.
    pub fn upper_bound(&self) -> (r: Option<Bound<T>>)
        requires
            ordered::<T>(),
            self.wf(),
        ensures
            r == (if self.tines().len() == 0 {
                None
            } else {
                Some(upper_of(self.tines()[self.tines().len() - 1]))
            }),
            forall|p: T| #[trigger] self@.contains(p) ==> (r matches Some(b) && upper_admits(b, p)),
    {
        self.0.upper_bound()
    }

    /// Returns the point of the lower bound, where there is one.
    pub fn infimum(&self) -> (r: Option<T>)
        requires
            ordered::<T>(),
            self.wf(),
        ensures
            r == (if self.tines().len() == 0 { None } else { self.tines()[0].point }),
    {
        self.0.infimum()
    }

    /// Returns the point of the upper bound, where there is one.
    pub fn supremum(&self) -> (r: Option<T>)
        requires
            ordered::<T>(),
            self.wf(),
        ensures
            r == (if self.tines().len() == 0 {
                None
            } else {
                self.tines()[self.tines().len() - 1].point
            }),
    {
        self.0.supremum()
    }

    /// Returns the least interval holding every selected point.
    pub fn enclosing_interval(&self) -> (r: RawInterval<T>)
        requires
            ordered::<T>(),
            self.wf(),
        ensures
            r.wf(),
            r == (if self.tines().len() == 0 {
                RawInterval::Empty
            } else {
                RawInterval::new_spec(
                    lower_of(self.tines()[0]),
                    upper_of(self.tines()[self.tines().len() - 1]),
                )
            }),
            forall|p: T| self@.contains(p) ==> #[trigger] r.contains_spec(p),
    {
        self.0.enclosing_interval()
    }

    /// Returns whether the selection holds the given point.
    pub fn contains(&self, point: &T) -> (r: bool)
        requires
            ordered::<T>(),
            self.wf(),
        ensures
            r == self@.contains(*point),
    {
        self.0.contains_pt(point)
    }

    /// Returns the selection of the points of both selections.
    pub fn intersect(&self, other: &Self) -> (r: Self)
        requires
            ordered::<T>(),
            self.wf(),
            other.wf(),
        ensures
            r.wf(),
            r@ == self@.intersect(other@),
            r.tines() == resettled_run(merged_run(self.tines(), other.tines(), Combine::Intersect)),
    {
        let r = Selection(self.0.intersect(&other.0));
        proof {
            assert(r@ =~= self@.intersect(other@));
        }
        r
    }

    /// Returns the selection of the points of either selection.
    pub fn union(&self, other: &Self) -> (r: Self)
        requires
            ordered::<T>(),
            self.wf(),
            other.wf(),
        ensures
            r.wf(),
            r@ == self@.union(other@),
            r.tines() == inserted_all(self.tines(), started(other.tines(), other.tines().len() as int)),
    {
        let r = Selection(self.0.union(&other.0));
        proof {
            assert(r@ =~= self@.union(other@));
        }
        r
    }

    /// Returns the selection of the points of this selection that the other
    /// does not hold.
    pub fn minus(&self, other: &Self) -> (r: Self)
        requires
            ordered::<T>(),
            self.wf(),
            other.wf(),
        ensures
            r.wf(),
            r@ == self@.difference(other@),
            r.tines() == minus_run(self.tines(), other.tines()),
    {
        let r = Selection(self.0.minus(&other.0));
        proof {
            assert(r@ =~= self@.difference(other@));
        }
        r
    }

    /// Returns the selection of the points that this one does not hold.
    pub fn complement(&self) -> (r: Self)
        requires
            ordered::<T>(),
            self.wf(),
        ensures
            r.wf(),
            r@ == self@.complement(),
            r.tines() == complement_run(self.tines()),
    {
        let r = Selection(self.0.complement());
        proof {
            assert(r@ =~= self@.complement());
        }
        r
    }

    /// Returns whether the selection holds every point of the interval: no
    /// tine remains once the selection is taken from the interval. Over a
    /// dense order this is exactly whether every point is held.
    pub fn contains_interval(&self, interval: &RawInterval<T>) -> (r: bool)
        requires
            ordered::<T>(),
            self.wf(),
            interval.wf(),
        ensures
            r == (minus_run(inserted(seq![], *interval), self.tines()).len() == 0),
            r ==> forall|p: T| interval.contains_spec(p) ==> #[trigger] self@.contains(p),
            dense::<T>() ==> (r <==> forall|p: T|
                interval.contains_spec(p) ==> #[trigger] self@.contains(p)),
    {
        let r = self.0.contains_interval(interval);
        proof {
            if forall|p: T| interval.contains_spec(p) ==> #[trigger] self@.contains(p) {
                assert forall|p: T| interval.contains_spec(p) implies #[trigger] self.0.contains_spec(p) by {
                    assert(self@.contains(p));
                }
            }
            if r {
                assert forall|p: T| interval.contains_spec(p) implies #[trigger] self@.contains(p) by {
                    assert(self.0.contains_spec(p));
                }
            }
        }
        r
    }

    /// Returns the least closed selection holding this one: every finite
    /// tine's point is selected too.
    pub fn closure(&self) -> (r: Self)
        requires
            ordered::<T>(),
            self.wf(),
        ensures
            r.tines() == resettled_run(merged_run(self.tines(), closure_points(self.tines()), Combine::Union)),
            r.wf(),
            forall|p: T| #[trigger] r@.contains(p) == (self@.contains(p) || point_among(
                self.tines(),
                self.tines().len() as int,
                p,
            )),
    {
        Selection(self.0.closure())
    }

    /// Removes every point outside the given interval.
    pub fn intersect_interval(&mut self, interval: &RawInterval<T>)
        requires
            ordered::<T>(),
            old(self).wf(),
            interval.wf(),
        ensures
            final(self).tines() == resettled_run(
                merged_run(old(self).tines(), inserted(seq![], *interval), Combine::Intersect),
            ),
            final(self).wf(),
            forall|p: T| #[trigger] final(self)@.contains(p) == (old(self)@.contains(p)
                && interval.contains_spec(p)),
    {
        self.0.intersect_interval(interval);
    }

    /// Inserts every point of the given interval.
    pub fn union_interval(&mut self, interval: RawInterval<T>)
        requires
            ordered::<T>(),
            old(self).wf(),
            interval.wf(),
        ensures
            final(self).tines() == inserted(old(self).tines(), interval),
            final(self).wf(),
            forall|p: T| #[trigger] final(self)@.contains(p) == (old(self)@.contains(p)
                || interval.contains_spec(p)),
    {
        self.0.union_interval(interval);
    }
}

/// Over a dense order with no least or greatest point, two selections that
/// hold the same points are made of the same tines.
pub proof fn lemma_canonical<T: Ord + Copy>(a: Selection<T>, b: Selection<T>)
    requires
        ordered::<T>(),
        dense::<T>(),
        a.wf(),
        b.wf(),
        a@ == b@,
    ensures
        a.tines() == b.tines(),
{
    assert forall|p: T| #[trigger] selects(a.tines(), p) == selects(b.tines(), p) by {
        assert(a@.contains(p) == a.contains_spec(p));
        assert(b@.contains(p) == b.contains_spec(p));
        assert(a.contains_spec(p) == selects(a.tines(), p));
        assert(b.contains_spec(p) == selects(b.tines(), p));
        assert(a@.contains(p) == b@.contains(p));
    }
    lemma_tines_canonical(a.tines(), b.tines());
}

} // verus!
