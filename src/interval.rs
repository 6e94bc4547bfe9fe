//! Intervals over a type whose points can be stepped through, always kept in
//! normal form.

use crate::bound::{lower_admits, upper_admits, Bound};
use crate::normalize::{lemma_normalize_contains, lemma_normalize_idempotent, Finite, Normalize};
use crate::order::ordered;
use crate::raw_interval::{seq_contains, RawInterval};
use vstd::prelude::*;

verus! {

/// An interval over a finite point type, held in normal form: `Empty`, a
/// point, or a closed interval.
#[derive(Debug, Clone, Copy, PartialEq, Eq)]
pub struct Interval<T>(RawInterval<T>);

/// The intervals of a sequence, each taken to its normal form.
pub open spec fn normal_forms<T: Finite>(s: Seq<RawInterval<T>>) -> Seq<Interval<T>> {
    s.map_values(|iv: RawInterval<T>| Interval::from_spec(iv.normal_form()))
}

/// The raw intervals of a sequence of intervals.
pub open spec fn raws_of<T: Finite>(s: Seq<Interval<T>>) -> Seq<RawInterval<T>> {
    s.map_values(|iv: Interval<T>| iv.raw_spec())
}

impl<T: Finite> Interval<T> {
    /// The interval in normal form that wraps `raw`.
    pub closed spec fn from_spec(raw: RawInterval<T>) -> Self {
        Interval(raw)
    }

    /// The interval, as a raw interval.
    pub closed spec fn raw_spec(&self) -> RawInterval<T> {
        self.0
    }

    /// The raw interval is well formed and in normal form.
    pub open spec fn inv(&self) -> bool {
        self.raw_spec().wf() && self.raw_spec().normal_form() == self.raw_spec()
    }

    /// Whether the interval holds `p`.
    pub open spec fn contains_spec(&self, p: T) -> bool {
        self.raw_spec().contains_spec(p)
    }

    /// Wraps the normal form of a raw interval.
    fn normal(raw: RawInterval<T>) -> (r: Self)
        requires
            ordered::<T>(),
            raw.wf(),
        ensures
            r.inv(),
            r.raw_spec() == raw.normal_form(),
            r == Self::from_spec(raw.normal_form()),
            forall|p: T| #[trigger] r.contains_spec(p) == raw.contains_spec(p),
    {
        proof {
            lemma_normalize_idempotent(raw);
            assert forall|p: T| #[trigger] raw.normal_form().contains_spec(p) == raw.contains_spec(p) by {
                lemma_normalize_contains(raw, p);
            }
            lemma_normalize_contains(raw, arbitrary());
        }
        Interval(raw.normalized())
    }

    /// Wraps the normal form of each raw interval.
    fn normal_all(raws: Vec<RawInterval<T>>) -> (r: Vec<Self>)
        requires
            ordered::<T>(),
            forall|i: int| 0 <= i < raws@.len() ==> (#[trigger] raws@[i]).wf(),
        ensures
            r@ == normal_forms(raws@),
            forall|i: int| 0 <= i < r@.len() ==> (#[trigger] r@[i]).inv(),
    {
        let mut r: Vec<Self> = Vec::new();
        let mut k: usize = 0;
        while k < raws.len()
            invariant
                ordered::<T>(),
                forall|i: int| 0 <= i < raws@.len() ==> (#[trigger] raws@[i]).wf(),
                k <= raws@.len(),
                r@ == normal_forms(raws@.take(k as int)),
                forall|i: int| 0 <= i < r@.len() ==> (#[trigger] r@[i]).inv(),
            decreases raws@.len() - k,
        {
            r.push(Self::normal(raws[k]));
            proof {
                assert(raws@.take(k + 1) =~= raws@.take(k as int).push(raws@[k as int]));
                assert(normal_forms(raws@.take(k + 1)) =~= normal_forms(raws@.take(k as int)).push(
                    Self::from_spec(raws@[k as int].normal_form()),
                ));
            }
            k = k + 1;
        }
        proof {
            assert(raws@.take(k as int) =~= raws@);
        }
        r
    }

    /// Returns the interval between two bounds, in normal form.
    pub fn new(lower: Bound<T>, upper: Bound<T>) -> (r: Self)
        requires
            ordered::<T>(),
        ensures
            r.inv(),
            r.raw_spec() == RawInterval::new_spec(lower, upper).normal_form(),
            forall|p: T| #[trigger] r.contains_spec(p) == (lower_admits(lower, p) && upper_admits(upper, p)),
    {
        Self::normal(RawInterval::new(lower, upper))
    }

    /// Returns the points strictly between two points, in normal form.
    pub fn open(lower: T, upper: T) -> (r: Self)
        requires
            ordered::<T>(),
        ensures
            r.inv(),
            r.raw_spec() == RawInterval::new_spec(Bound::Exclude(lower), Bound::Exclude(upper)).normal_form(),
    {
        Self::new(Bound::Exclude(lower), Bound::Exclude(upper))
    }

    /// Returns the points between two points with the upper one, in normal
    /// form.
    pub fn left_open(lower: T, upper: T) -> (r: Self)
        requires
            ordered::<T>(),
        ensures
            r.inv(),
            r.raw_spec() == RawInterval::new_spec(Bound::Exclude(lower), Bound::Include(upper)).normal_form(),
    {
        Self::new(Bound::Exclude(lower), Bound::Include(upper))
    }

    /// Returns the points between two points with the lower one, in normal
    /// form.
    pub fn right_open(lower: T, upper: T) -> (r: Self)
        requires
            ordered::<T>(),
        ensures
            r.inv(),
            r.raw_spec() == RawInterval::new_spec(Bound::Include(lower), Bound::Exclude(upper)).normal_form(),
    {
        Self::new(Bound::Include(lower), Bound::Exclude(upper))
    }

    /// Returns the points between two points with both, in normal form.
    pub fn closed(lower: T, upper: T) -> (r: Self)
        requires
            ordered::<T>(),
        ensures
            r.inv(),
            r.raw_spec() == RawInterval::new_spec(Bound::Include(lower), Bound::Include(upper)).normal_form(),
    {
        Self::new(Bound::Include(lower), Bound::Include(upper))
    }

    /// Returns the interval of a single point.
    pub fn point(p: T) -> (r: Self)
        requires
            ordered::<T>(),
        ensures
            r.inv(),
            r.raw_spec() == RawInterval::Point(p),
    {
        Self::normal(RawInterval::Point(p))
    }

    /// Returns the interval of every point, in normal form.
    pub fn full() -> (r: Self)
        requires
            ordered::<T>(),
        ensures
            r.inv(),
            r.raw_spec() == RawInterval::<T>::Full.normal_form(),
            forall|p: T| #[trigger] r.contains_spec(p),
    {
        Self::normal(RawInterval::Full)
    }

    /// Returns the interval of no point.
    pub fn empty() -> (r: Self)
        requires
            ordered::<T>(),
        ensures
            r.inv(),
            r.raw_spec() == RawInterval::<T>::Empty,
    {
        Self::normal(RawInterval::Empty)
    }

    /// Returns the interval as a raw interval in normal form.
    pub fn raw(&self) -> (r: RawInterval<T>)
        ensures
            r == self.raw_spec(),
    {
        self.0
    }

    /// Returns whether the interval holds no point.
    pub fn is_empty(&self) -> (r: bool)
        ensures
            r == (self.raw_spec() is Empty),
    {
        self.0.is_empty()
    }

    /// Returns whether the interval holds exactly one point.
    pub fn is_degenerate(&self) -> (r: bool)
        ensures
            r == (self.raw_spec() is Point),
    {
        matches!(self.0, RawInterval::Point(_))
    }

    /// Returns whether the interval holds the given point.
    pub fn contains(&self, point: &T) -> (r: bool)
        requires
            ordered::<T>(),
        ensures
            r == self.contains_spec(*point),
    {
        self.0.contains(point)
    }

    /// Returns the points of both intervals, in normal form.
    pub fn intersect(&self, other: &Self) -> (r: Self)
        requires
            ordered::<T>(),
            self.inv(),
            other.inv(),
        ensures
            r.inv(),
            r.raw_spec() == self.raw_spec().intersect_spec(other.raw_spec()).normal_form(),
            forall|p: T| #[trigger] r.contains_spec(p) == (self.contains_spec(p) && other.contains_spec(p)),
    {
        Self::normal(self.0.intersect(&other.0))
    }

    /// Returns the least interval holding both, in normal form.
    pub fn enclose(&self, other: &Self) -> (r: Self)
        requires
            ordered::<T>(),
            self.inv(),
            other.inv(),
        ensures
            r.inv(),
            r.raw_spec() == self.raw_spec().enclose_spec(other.raw_spec()).normal_form(),
            forall|p: T| self.contains_spec(p) || other.contains_spec(p) ==> #[trigger] r.contains_spec(p),
    {
        Self::normal(self.0.enclose(&other.0))
    }

    /// Returns the interval with its finite endpoints included, in normal
    /// form.
    pub fn closure(&self) -> (r: Self)
        requires
            ordered::<T>(),
            self.inv(),
        ensures
            r.inv(),
            r.raw_spec() == self.raw_spec().closure_spec().normal_form(),
    {
        Self::normal(self.0.closure())
    }

    /// Returns the intervals, in normal form, that hold the points of
    /// either.
    pub fn union(&self, other: &Self) -> (r: Vec<Self>)
        requires
            ordered::<T>(),
            self.inv(),
            other.inv(),
        ensures
            r@ == normal_forms(self.raw_spec().union_spec(other.raw_spec())),
            forall|i: int| 0 <= i < r@.len() ==> (#[trigger] r@[i]).inv(),
    {
        Self::normal_all(self.0.union(&other.0))
    }

    /// Returns the intervals, in normal form, that hold the points of this
    /// one that the other lacks.
    pub fn minus(&self, other: &Self) -> (r: Vec<Self>)
        requires
            ordered::<T>(),
            self.inv(),
            other.inv(),
        ensures
            forall|i: int| 0 <= i < r@.len() ==> (#[trigger] r@[i]).inv(),
            forall|p: T| #[trigger] seq_contains(raws_of(r@), p) == (
            self.contains_spec(p) && !other.contains_spec(p)),
    {
        let raws = self.0.minus(&other.0);
        let r = Self::normal_all(raws);
        proof {
            lemma_normal_forms_contain(raws@);
        }
        r
    }

    /// Returns the intervals, in normal form, that hold the points this one
    /// lacks.
    pub fn complement(&self) -> (r: Vec<Self>)
        requires
            ordered::<T>(),
            self.inv(),
        ensures
            r@ == normal_forms(self.raw_spec().complement_spec()),
            forall|i: int| 0 <= i < r@.len() ==> (#[trigger] r@[i]).inv(),
            forall|p: T| #[trigger] seq_contains(raws_of(r@), p)
                == !self.contains_spec(p),
    {
        let raws = self.0.complement();
        let r = Self::normal_all(raws);
        proof {
            lemma_normal_forms_contain(raws@);
        }
        r
    }
}

/// Normal forms hold the points that the raw intervals hold.
proof fn lemma_normal_forms_contain<T: Finite>(s: Seq<RawInterval<T>>)
    requires
        ordered::<T>(),
        forall|i: int| 0 <= i < s.len() ==> (#[trigger] s[i]).wf(),
    ensures
        forall|p: T| #[trigger]
            seq_contains(raws_of(normal_forms(s)), p)
                == seq_contains(s, p),
{
    let m = raws_of(normal_forms(s));
    assert forall|i: int| 0 <= i < s.len() implies #[trigger] m[i] == s[i].normal_form() by {}
    assert forall|p: T| #[trigger] seq_contains(m, p) == seq_contains(s, p) by {
        if seq_contains(s, p) {
            let i = choose|i: int| 0 <= i < s.len() && (#[trigger] s[i]).contains_spec(p);
            lemma_normalize_contains(s[i], p);
            assert(m[i].contains_spec(p));
        }
        if seq_contains(m, p) {
            let i = choose|i: int| 0 <= i < m.len() && (#[trigger] m[i]).contains_spec(p);
            lemma_normalize_contains(s[i], p);
        }
    }
}

} // verus!
