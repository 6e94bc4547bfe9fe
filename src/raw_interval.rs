//! A single contiguous interval, described by one of eleven shapes.

use crate::bound::{
    bound_point, greatest_intersect_spec, greatest_union_spec, least_intersect_spec,
    least_union_spec, lemma_bound_ops, lower_admits, union_adjacent_spec, upper_admits, Bound,
};
use crate::order::{compare, le, lemma_order, lt, ordered};
use core::cmp::Ordering;
use vstd::prelude::*;

verus! {

/// A contiguous interval of points of `T`.
#[derive(Debug, Clone, Copy, PartialEq, Eq, Hash)]
pub enum RawInterval<T> {
    /// No points.
    Empty,
    /// Only the given point.
    Point(T),
    /// The points strictly between the two given points.
    Open(T, T),
    /// The points between the two given points, with the upper one.
    LeftOpen(T, T),
    /// The points between the two given points, with the lower one.
    RightOpen(T, T),
    /// The points between the two given points, with both of them.
    Closed(T, T),
    /// The points below the given point.
    UpTo(T),
    /// The points above the given point.
    UpFrom(T),
    /// The given point and the points below it.
    To(T),
    /// The given point and the points above it.
    From(T),
    /// All points.
    Full,
}

/// The points that some interval of the sequence holds.
pub open spec fn seq_contains<T: Ord>(s: Seq<RawInterval<T>>, p: T) -> bool {
    exists|i: int| 0 <= i < s.len() && (#[trigger] s[i]).contains_spec(p)
}

/// A lower and an upper bound that no interval lies between: they cross,
/// or meet at a point that one of them leaves out.
pub open spec fn reversed<T: Ord>(lower: Bound<T>, upper: Bound<T>) -> bool {
    !(lower is Infinite) && !(upper is Infinite) && (lt(bound_point(upper), bound_point(lower)) || (
    bound_point(upper) == bound_point(lower) && !(lower is Include && upper is Include)))
}

impl<T: Ord> RawInterval<T> {
    /// The endpoints are in order: strictly for the open and half-open
    /// shapes.
    pub open spec fn wf(self) -> bool {
        match self {
            RawInterval::Open(l, r) => lt(l, r),
            RawInterval::LeftOpen(l, r) => lt(l, r),
            RawInterval::RightOpen(l, r) => lt(l, r),
            RawInterval::Closed(l, r) => le(l, r),
            _ => true,
        }
    }

    /// Whether the interval holds `p`.
    pub open spec fn contains_spec(self, p: T) -> bool {
        match self {
            RawInterval::Empty => false,
            RawInterval::Point(v) => p == v,
            RawInterval::Open(l, r) => lt(l, p) && lt(p, r),
            RawInterval::LeftOpen(l, r) => lt(l, p) && le(p, r),
            RawInterval::RightOpen(l, r) => le(l, p) && lt(p, r),
            RawInterval::Closed(l, r) => le(l, p) && le(p, r),
            RawInterval::UpTo(v) => lt(p, v),
            RawInterval::UpFrom(v) => lt(v, p),
            RawInterval::To(v) => le(p, v),
            RawInterval::From(v) => le(v, p),
            RawInterval::Full => true,
        }
    }

    /// The lower bound of a non-empty interval.
    pub open spec fn lower_spec(self) -> Bound<T> {
        match self {
            RawInterval::Point(v) => Bound::Include(v),
            RawInterval::Open(l, _) => Bound::Exclude(l),
            RawInterval::LeftOpen(l, _) => Bound::Exclude(l),
            RawInterval::RightOpen(l, _) => Bound::Include(l),
            RawInterval::Closed(l, _) => Bound::Include(l),
            RawInterval::UpFrom(v) => Bound::Exclude(v),
            RawInterval::From(v) => Bound::Include(v),
            _ => Bound::Infinite,
        }
    }

    /// The upper bound of a non-empty interval.
    pub open spec fn upper_spec(self) -> Bound<T> {
        match self {
            RawInterval::Point(v) => Bound::Include(v),
            RawInterval::Open(_, r) => Bound::Exclude(r),
            RawInterval::LeftOpen(_, r) => Bound::Include(r),
            RawInterval::RightOpen(_, r) => Bound::Exclude(r),
            RawInterval::Closed(_, r) => Bound::Include(r),
            RawInterval::UpTo(v) => Bound::Exclude(v),
            RawInterval::To(v) => Bound::Include(v),
            _ => Bound::Infinite,
        }
    }

    /// The interval between two points holding both: a point where they are
    /// equal, `Empty` where they are reversed.
    pub open spec fn closed_spec(lower: T, upper: T) -> Self {
        if lt(lower, upper) {
            RawInterval::Closed(lower, upper)
        } else if lower == upper {
            RawInterval::Point(lower)
        } else {
            RawInterval::Empty
        }
    }

    /// The interval between two bounds: empty when they are reversed.
    pub open spec fn new_spec(lower: Bound<T>, upper: Bound<T>) -> Self {
        if reversed(lower, upper) {
            RawInterval::Empty
        } else {
            match (lower, upper) {
                (Bound::Include(l), Bound::Include(u)) => if l == u {
                    RawInterval::Point(l)
                } else {
                    RawInterval::Closed(l, u)
                },
                (Bound::Include(l), Bound::Exclude(u)) => RawInterval::RightOpen(l, u),
                (Bound::Include(l), Bound::Infinite) => RawInterval::From(l),
                (Bound::Exclude(l), Bound::Include(u)) => RawInterval::LeftOpen(l, u),
                (Bound::Exclude(l), Bound::Exclude(u)) => RawInterval::Open(l, u),
                (Bound::Exclude(l), Bound::Infinite) => RawInterval::UpFrom(l),
                (Bound::Infinite, Bound::Include(u)) => RawInterval::To(u),
                (Bound::Infinite, Bound::Exclude(u)) => RawInterval::UpTo(u),
                (Bound::Infinite, Bound::Infinite) => RawInterval::Full,
            }
        }
    }

    /// The intersection of two intervals: the greater lower bound and the
    /// lesser upper bound.
    pub open spec fn intersect_spec(self, other: Self) -> Self {
        if self is Empty || other is Empty {
            RawInterval::Empty
        } else {
            Self::new_spec(
                greatest_intersect_spec(self.lower_spec(), other.lower_spec()),
                least_intersect_spec(self.upper_spec(), other.upper_spec()),
            )
        }
    }

    /// The least interval enclosing two intervals: the lesser lower bound and
    /// the greater upper bound.
    pub open spec fn enclose_spec(self, other: Self) -> Self {
        if self is Empty && other is Empty {
            RawInterval::Empty
        } else if self is Empty {
            Self::new_spec(other.lower_spec(), other.upper_spec())
        } else if other is Empty {
            Self::new_spec(self.lower_spec(), self.upper_spec())
        } else {
            Self::new_spec(
                least_union_spec(self.lower_spec(), other.lower_spec()),
                greatest_union_spec(self.upper_spec(), other.upper_spec()),
            )
        }
    }

    /// One interval ends at the point where the other begins, one holding
    /// that point and the other not.
    pub open spec fn adjacent_spec(self, other: Self) -> bool {
        !(self is Empty) && !(other is Empty) && (union_adjacent_spec(
            self.lower_spec(),
            other.upper_spec(),
        ) || union_adjacent_spec(other.lower_spec(), self.upper_spec()))
    }

    /// Whether the intersection of the two intervals is not `Empty`.
    pub open spec fn intersects_spec(self, other: Self) -> bool {
        !(self.intersect_spec(other) is Empty)
    }

    /// The pieces that make up the complement of the interval.
    pub open spec fn complement_spec(self) -> Seq<Self> {
        match self {
            RawInterval::Empty => seq![RawInterval::Full],
            RawInterval::Point(p) => seq![RawInterval::UpTo(p), RawInterval::UpFrom(p)],
            RawInterval::Open(l, r) => seq![RawInterval::To(l), RawInterval::From(r)],
            RawInterval::LeftOpen(l, r) => seq![RawInterval::To(l), RawInterval::UpFrom(r)],
            RawInterval::RightOpen(l, r) => seq![RawInterval::UpTo(l), RawInterval::From(r)],
            RawInterval::Closed(l, r) => seq![RawInterval::UpTo(l), RawInterval::UpFrom(r)],
            RawInterval::UpTo(p) => seq![RawInterval::From(p)],
            RawInterval::UpFrom(p) => seq![RawInterval::To(p)],
            RawInterval::To(p) => seq![RawInterval::UpFrom(p)],
            RawInterval::From(p) => seq![RawInterval::UpTo(p)],
            RawInterval::Full => seq![],
        }
    }

    /// The union of two intervals: one enclosing interval where they
    /// intersect or are adjacent, else both, in argument order.
    pub open spec fn union_spec(self, other: Self) -> Seq<Self> {
        if self is Empty && other is Empty {
            seq![]
        } else if self is Empty {
            seq![other]
        } else if other is Empty {
            seq![self]
        } else if self.intersects_spec(other) || self.adjacent_spec(other) {
            seq![self.enclose_spec(other)]
        } else {
            seq![self, other]
        }
    }

    /// The interval with its finite endpoints included.
    pub open spec fn closure_spec(self) -> Self {
        match self {
            RawInterval::Open(l, r) => RawInterval::Closed(l, r),
            RawInterval::LeftOpen(l, r) => RawInterval::Closed(l, r),
            RawInterval::RightOpen(l, r) => RawInterval::Closed(l, r),
            RawInterval::UpTo(r) => RawInterval::To(r),
            RawInterval::UpFrom(l) => RawInterval::From(l),
            _ => self,
        }
    }

    /// The interval holds at least one point.
    pub open spec fn inhabited(self) -> bool {
        exists|p: T| self.contains_spec(p)
    }
}

impl<T: Ord + Copy> RawInterval<T> {
    /// Returns the interval between two bounds, either of which may be
    /// infinite; `Empty` where they are reversed.
    pub fn new(lower: Bound<T>, upper: Bound<T>) -> (r: Self)
        requires
            ordered::<T>(),
        ensures
            r == Self::new_spec(lower, upper),
            r.wf(),
            r is Empty <==> reversed(lower, upper),
            forall|p: T| #[trigger] r.contains_spec(p) == (lower_admits(lower, p) && upper_admits(upper, p)),
    {
        proof {
            lemma_order::<T>();
            lemma_new(lower, upper);
        }
        match (lower, upper) {
            (Bound::Include(l), Bound::Include(u)) => Self::closed(l, u),
            (Bound::Include(l), Bound::Exclude(u)) => match compare(&l, &u) {
                Ordering::Less => RawInterval::RightOpen(l, u),
                _ => RawInterval::Empty,
            },
            (Bound::Include(l), Bound::Infinite) => RawInterval::From(l),
            (Bound::Exclude(l), Bound::Include(u)) => match compare(&l, &u) {
                Ordering::Less => RawInterval::LeftOpen(l, u),
                _ => RawInterval::Empty,
            },
            (Bound::Exclude(l), Bound::Exclude(u)) => Self::open(l, u),
            (Bound::Exclude(l), Bound::Infinite) => RawInterval::UpFrom(l),
            (Bound::Infinite, Bound::Include(u)) => RawInterval::To(u),
            (Bound::Infinite, Bound::Exclude(u)) => RawInterval::UpTo(u),
            (Bound::Infinite, Bound::Infinite) => RawInterval::Full,
        }
    }

    /// Returns the interval strictly between two points; `Empty` unless
    /// `lower < upper`.
    pub fn open(lower: T, upper: T) -> (r: Self)
        requires
            ordered::<T>(),
        ensures
            r == (if lt(lower, upper) {
                RawInterval::Open(lower, upper)
            } else {
                RawInterval::Empty
            }),
    {
        match compare(&lower, &upper) {
            Ordering::Less => RawInterval::Open(lower, upper),
            _ => RawInterval::Empty,
        }
    }

    /// Returns the interval between two points holding the upper one;
    /// `Empty` unless `lower < upper`.
    pub fn left_open(lower: T, upper: T) -> (r: Self)
        requires
            ordered::<T>(),
        ensures
            r == (if lt(lower, upper) {
                RawInterval::LeftOpen(lower, upper)
            } else {
                RawInterval::Empty
            }),
    {
        match compare(&lower, &upper) {
            Ordering::Less => RawInterval::LeftOpen(lower, upper),
            _ => RawInterval::Empty,
        }
    }

    /// Returns the interval between two points holding the lower one;
    /// `Empty` unless `lower < upper`.
    pub fn right_open(lower: T, upper: T) -> (r: Self)
        requires
            ordered::<T>(),
        ensures
            r == (if lt(lower, upper) {
                RawInterval::RightOpen(lower, upper)
            } else {
                RawInterval::Empty
            }),
    {
        match compare(&lower, &upper) {
            Ordering::Less => RawInterval::RightOpen(lower, upper),
            _ => RawInterval::Empty,
        }
    }

    /// Returns the interval between two points holding both; a point where
    /// they are equal, `Empty` where they are reversed.
    pub fn closed(lower: T, upper: T) -> (r: Self)
        requires
            ordered::<T>(),
        ensures
            r == Self::closed_spec(lower, upper),
    {
        match compare(&lower, &upper) {
            Ordering::Less => RawInterval::Closed(lower, upper),
            Ordering::Equal => RawInterval::Point(lower),
            Ordering::Greater => RawInterval::Empty,
        }
    }

    /// Returns the lower bound, or `None` for an empty interval.
    pub fn lower_bound(&self) -> (r: Option<Bound<T>>)
        ensures
            r == (if *self is Empty { None } else { Some(self.lower_spec()) }),
    {
        match *self {
            RawInterval::Empty => None,
            RawInterval::Point(p) => Some(Bound::Include(p)),
            RawInterval::Open(l, _) => Some(Bound::Exclude(l)),
            RawInterval::LeftOpen(l, _) => Some(Bound::Exclude(l)),
            RawInterval::RightOpen(l, _) => Some(Bound::Include(l)),
            RawInterval::Closed(l, _) => Some(Bound::Include(l)),
            RawInterval::UpTo(_) => Some(Bound::Infinite),
            RawInterval::UpFrom(p) => Some(Bound::Exclude(p)),
            RawInterval::To(_) => Some(Bound::Infinite),
            RawInterval::From(p) => Some(Bound::Include(p)),
            RawInterval::Full => Some(Bound::Infinite),
        }
    }

    /// Returns the upper bound, or `None` for an empty interval.
    pub fn upper_bound(&self) -> (r: Option<Bound<T>>)
        ensures
            r == (if *self is Empty { None } else { Some(self.upper_spec()) }),
    {
        match *self {
            RawInterval::Empty => None,
            RawInterval::Point(p) => Some(Bound::Include(p)),
            RawInterval::Open(_, r) => Some(Bound::Exclude(r)),
            RawInterval::LeftOpen(_, r) => Some(Bound::Include(r)),
            RawInterval::RightOpen(_, r) => Some(Bound::Exclude(r)),
            RawInterval::Closed(_, r) => Some(Bound::Include(r)),
            RawInterval::UpTo(p) => Some(Bound::Exclude(p)),
            RawInterval::UpFrom(_) => Some(Bound::Infinite),
            RawInterval::To(p) => Some(Bound::Include(p)),
            RawInterval::From(_) => Some(Bound::Infinite),
            RawInterval::Full => Some(Bound::Infinite),
        }
    }

    /// Returns the point of the lower bound, or `None` where there is none.
    pub fn infimum(&self) -> (r: Option<T>)
        ensures
            r == (if *self is Empty || self.lower_spec() is Infinite {
                None
            } else {
                Some(bound_point(self.lower_spec()))
            }),
    {
        match self.lower_bound() {
            Some(Bound::Include(b)) => Some(b),
            Some(Bound::Exclude(b)) => Some(b),
            _ => None,
        }
    }

    /// Returns the point of the upper bound, or `None` where there is none.
    pub fn supremum(&self) -> (r: Option<T>)
        ensures
            r == (if *self is Empty || self.upper_spec() is Infinite {
                None
            } else {
                Some(bound_point(self.upper_spec()))
            }),
    {
        match self.upper_bound() {
            Some(Bound::Include(b)) => Some(b),
            Some(Bound::Exclude(b)) => Some(b),
            _ => None,
        }
    }

    /// Returns whether the interval is `Empty`.
    pub fn is_empty(&self) -> (r: bool)
        ensures
            r == (*self is Empty),
    {
        matches!(self, RawInterval::Empty)
    }

    /// Returns whether the interval is `Full`.
    pub fn is_full(&self) -> (r: bool)
        ensures
            r == (*self is Full),
    {
        matches!(self, RawInterval::Full)
    }

    /// Returns whether the interval holds the given point.
    pub fn contains(&self, point: &T) -> (r: bool)
        requires
            ordered::<T>(),
        ensures
            r == self.contains_spec(*point),
    {
        match *self {
            RawInterval::Empty => false,
            RawInterval::Point(p) => matches!(compare(point, &p), Ordering::Equal),
            RawInterval::Open(l, r) => matches!(compare(point, &l), Ordering::Greater) && matches!(
                compare(point, &r),
                Ordering::Less
            ),
            RawInterval::LeftOpen(l, r) => matches!(compare(point, &l), Ordering::Greater)
                && !matches!(compare(point, &r), Ordering::Greater),
            RawInterval::RightOpen(l, r) => !matches!(compare(point, &l), Ordering::Less)
                && matches!(compare(point, &r), Ordering::Less),
            RawInterval::Closed(l, r) => !matches!(compare(point, &l), Ordering::Less) && !matches!(
                compare(point, &r),
                Ordering::Greater
            ),
            RawInterval::UpTo(p) => matches!(compare(point, &p), Ordering::Less),
            RawInterval::UpFrom(p) => matches!(compare(point, &p), Ordering::Greater),
            RawInterval::To(p) => !matches!(compare(point, &p), Ordering::Greater),
            RawInterval::From(p) => !matches!(compare(point, &p), Ordering::Less),
            RawInterval::Full => true,
        }
    }

    /// Returns whether the intersection of the two intervals is not `Empty`.
    pub fn intersects(&self, other: &Self) -> (r: bool)
        requires
            ordered::<T>(),
        ensures
            r == self.intersects_spec(*other),
    {
        !self.intersect(other).is_empty()
    }

    /// Returns whether one interval ends where the other begins, one holding
    /// that point and the other not.
    pub fn adjacent(&self, other: &Self) -> (r: bool)
        requires
            ordered::<T>(),
        ensures
            r == self.adjacent_spec(*other),
    {
        let a = match (self.lower_bound(), other.upper_bound()) {
            (Some(lb), Some(ub)) => lb.union_adjacent(&ub),
            _ => false,
        };
        let b = match (self.upper_bound(), other.lower_bound()) {
            (Some(ub), Some(lb)) => lb.union_adjacent(&ub),
            _ => false,
        };
        a || b
    }

    /// Returns the intervals that together hold every point the interval
    /// does not: none, one or two.
    pub fn complement(&self) -> (r: Vec<Self>)
        requires
            ordered::<T>(),
            self.wf(),
        ensures
            r@ == self.complement_spec(),
            forall|i: int| 0 <= i < r@.len() ==> (#[trigger] r@[i]).wf(),
            forall|p: T| #[trigger] seq_contains(r@, p) == !self.contains_spec(p),
    {
        proof {
            lemma_complement(*self);
        }
        let r = match *self {
            RawInterval::Empty => vec![RawInterval::Full],
            RawInterval::Point(p) => vec![RawInterval::UpTo(p), RawInterval::UpFrom(p)],
            RawInterval::Open(l, r) => vec![RawInterval::To(l), RawInterval::From(r)],
            RawInterval::LeftOpen(l, r) => vec![RawInterval::To(l), RawInterval::UpFrom(r)],
            RawInterval::RightOpen(l, r) => vec![RawInterval::UpTo(l), RawInterval::From(r)],
            RawInterval::Closed(l, r) => vec![RawInterval::UpTo(l), RawInterval::UpFrom(r)],
            RawInterval::UpTo(p) => vec![RawInterval::From(p)],
            RawInterval::UpFrom(p) => vec![RawInterval::To(p)],
            RawInterval::To(p) => vec![RawInterval::UpFrom(p)],
            RawInterval::From(p) => vec![RawInterval::UpTo(p)],
            RawInterval::Full => vec![],
        };
        proof {
            assert(r@ =~= self.complement_spec());
        }
        r
    }

    /// Returns the largest interval holding only points of both intervals.
    pub fn intersect(&self, other: &Self) -> (r: Self)
        requires
            ordered::<T>(),
        ensures
            r == self.intersect_spec(*other),
            self.wf() && other.wf() ==> r.wf() && forall|p: T| #[trigger] r.contains_spec(p) == (
            self.contains_spec(p) && other.contains_spec(p)),
    {
        proof {
            if self.wf() && other.wf() {
                lemma_intersect(*self, *other);
            }
        }
        let lb = match (self.lower_bound(), other.lower_bound()) {
            (Some(a), Some(b)) => a.greatest_intersect(&b),
            _ => return RawInterval::Empty,
        };
        let ub = match (self.upper_bound(), other.upper_bound()) {
            (Some(a), Some(b)) => a.least_intersect(&b),
            _ => return RawInterval::Empty,
        };
        Self::new(lb, ub)
    }

    /// Returns the intervals that together hold the points of both: one
    /// enclosing interval where they intersect or are adjacent, else both.
    pub fn union(&self, other: &Self) -> (r: Vec<Self>)
        requires
            ordered::<T>(),
            self.wf(),
            other.wf(),
        ensures
            r@ == self.union_spec(*other),
            forall|i: int| 0 <= i < r@.len() ==> (#[trigger] r@[i]).wf(),
            forall|p: T| #[trigger] seq_contains(r@, p) == (self.contains_spec(p) || other.contains_spec(p)),
    {
        let r = match (self.is_empty(), other.is_empty()) {
            (true, true) => vec![],
            (true, false) => vec![*other],
            (false, true) => vec![*self],
            (false, false) => {
                if self.intersects(other) || self.adjacent(other) {
                    proof {
                        lemma_enclose(*self, *other);
                        lemma_enclose_joined(*self, *other);
                    }
                    vec![self.enclose(other)]
                } else {
                    vec![*self, *other]
                }
            },
        };
        proof {
            assert(r@ =~= self.union_spec(*other));
            assert forall|p: T| #[trigger] seq_contains(r@, p) == (self.contains_spec(p)
                || other.contains_spec(p)) by {
                if r@.len() > 0 {
                    assert(r@[0].contains_spec(p) ==> seq_contains(r@, p));
                }
                if r@.len() > 1 {
                    assert(r@[1].contains_spec(p) ==> seq_contains(r@, p));
                }
            }
        }
        r
    }

    /// Returns the intervals that together hold the points of this interval
    /// that the other does not hold.
    pub fn minus(&self, other: &Self) -> (r: Vec<Self>)
        requires
            ordered::<T>(),
            self.wf(),
            other.wf(),
        ensures
            r@ == kept_pieces(*self, other.complement_spec()),
            forall|i: int| 0 <= i < r@.len() ==> (#[trigger] r@[i]).wf() && !(r@[i] is Empty),
            r@.len() <= other.complement_spec().len(),
            forall|p: T| #[trigger] seq_contains(r@, p) == (self.contains_spec(p) && !other.contains_spec(p)),
    {
        let pieces = other.complement();
        let mut r: Vec<Self> = Vec::new();
        let mut k: usize = 0;
        while k < pieces.len()
            invariant
                ordered::<T>(),
                self.wf(),
                k <= pieces@.len(),
                r@.len() <= k,
                r@ == kept_pieces(*self, pieces@.take(k as int)),
                forall|i: int| 0 <= i < pieces@.len() ==> (#[trigger] pieces@[i]).wf(),
                forall|i: int| 0 <= i < r@.len() ==> (#[trigger] r@[i]).wf() && !(r@[i] is Empty),
                forall|p: T| #[trigger]
                    seq_contains(r@, p) == (self.contains_spec(p) && seq_contains(
                        pieces@.take(k as int),
                        p,
                    )),
            decreases pieces@.len() - k,
        {
            let i = self.intersect(&pieces[k]);
            let ghost old_r = r@;
            if !i.is_empty() {
                r.push(i);
            }
            proof {
                assert(pieces@.take(k + 1) =~= pieces@.take(k as int).push(pieces@[k as int]));
                assert(pieces@.take(k + 1).drop_last() =~= pieces@.take(k as int));
                assert(kept_pieces(*self, pieces@.take(k + 1)) == r@);
                lemma_seq_contains_push(pieces@.take(k as int), pieces@[k as int]);
                if !(i is Empty) {
                    lemma_seq_contains_push(old_r, i);
                }
                assert forall|p: T| #[trigger]
                    seq_contains(r@, p) == (self.contains_spec(p) && seq_contains(
                        pieces@.take(k + 1),
                        p,
                    )) by {
                    assert(i.contains_spec(p) == (self.contains_spec(p) && pieces@[k as int].contains_spec(p)));
                    assert(seq_contains(old_r, p) == (self.contains_spec(p) && seq_contains(
                        pieces@.take(k as int),
                        p,
                    )));
                }
            }
            k = k + 1;
        }
        proof {
            assert(pieces@.take(k as int) =~= pieces@);
        }
        r
    }

    /// Returns the least interval holding every point of both intervals.
    pub fn enclose(&self, other: &Self) -> (r: Self)
        requires
            ordered::<T>(),
        ensures
            r == self.enclose_spec(*other),
            self.wf() && other.wf() ==> r.wf() && forall|p: T|
                self.contains_spec(p) || other.contains_spec(p) ==> #[trigger] r.contains_spec(p),
    {
        proof {
            if self.wf() && other.wf() {
                lemma_enclose(*self, *other);
            }
        }
        let lb = match (self.lower_bound(), other.lower_bound()) {
            (Some(a), Some(b)) => a.least_union(&b),
            (Some(a), None) => a,
            (None, Some(b)) => b,
            (None, None) => return RawInterval::Empty,
        };
        let ub = match (self.upper_bound(), other.upper_bound()) {
            (Some(a), Some(b)) => a.greatest_union(&b),
            (Some(a), None) => a,
            (None, Some(b)) => b,
            (None, None) => return RawInterval::Empty,
        };
        Self::new(lb, ub)
    }

    /// Returns the interval with its finite endpoints included.
    pub fn closure(&self) -> (r: Self)
        requires
            ordered::<T>(),
            self.wf(),
        ensures
            r == self.closure_spec(),
            r.wf(),
            forall|p: T| self.contains_spec(p) ==> #[trigger] r.contains_spec(p),
    {
        proof {
            lemma_order::<T>();
        }
        match *self {
            RawInterval::Open(l, r) => RawInterval::Closed(l, r),
            RawInterval::LeftOpen(l, r) => RawInterval::Closed(l, r),
            RawInterval::RightOpen(l, r) => RawInterval::Closed(l, r),
            RawInterval::UpTo(r) => RawInterval::To(r),
            RawInterval::UpFrom(l) => RawInterval::From(l),
            _ => *self,
        }
    }
}

/// Appending an interval adds its points.
pub proof fn lemma_seq_contains_push<T: Ord>(s: Seq<RawInterval<T>>, x: RawInterval<T>)
    ensures
        forall|p: T| #[trigger]
            seq_contains(s.push(x), p) == (seq_contains(s, p) || x.contains_spec(p)),
{
    assert forall|p: T| #[trigger]
        seq_contains(s.push(x), p) == (seq_contains(s, p) || x.contains_spec(p)) by {
        if seq_contains(s, p) {
            let j = choose|j: int| 0 <= j < s.len() && (#[trigger] s[j]).contains_spec(p);
            assert(s.push(x)[j] == s[j]);
        }
        if x.contains_spec(p) {
            assert(s.push(x)[s.len() as int] == x);
        }
        if seq_contains(s.push(x), p) {
            let j = choose|j: int| 0 <= j < s.len() + 1 && (#[trigger] s.push(x)[j]).contains_spec(p);
            if j < s.len() {
                assert(s.push(x)[j] == s[j]);
            }
        }
    }
}

/// Widening one interval of a sequence by the points of `y` adds those
/// points.
pub proof fn lemma_seq_contains_update<T: Ord>(
    s: Seq<RawInterval<T>>,
    j: int,
    x: RawInterval<T>,
    y: RawInterval<T>,
)
    requires
        0 <= j < s.len(),
        forall|p: T| #[trigger] x.contains_spec(p) == (s[j].contains_spec(p) || y.contains_spec(p)),
    ensures
        forall|p: T| #[trigger]
            seq_contains(s.update(j, x), p) == (seq_contains(s, p) || y.contains_spec(p)),
{
    assert forall|p: T| #[trigger]
        seq_contains(s.update(j, x), p) == (seq_contains(s, p) || y.contains_spec(p)) by {
        if seq_contains(s, p) {
            let i = choose|i: int| 0 <= i < s.len() && (#[trigger] s[i]).contains_spec(p);
            if i != j {
                assert(s.update(j, x)[i] == s[i]);
            } else {
                assert(s.update(j, x)[j] == x);
            }
        }
        if y.contains_spec(p) {
            assert(s.update(j, x)[j] == x);
        }
        if seq_contains(s.update(j, x), p) {
            let i = choose|i: int| 0 <= i < s.len() && (#[trigger] s.update(j, x)[i]).contains_spec(p);
            if i != j {
                assert(s.update(j, x)[i] == s[i]);
            }
        }
    }
}

/// The points that every interval of the sequence holds.
pub open spec fn seq_contains_all<T: Ord>(s: Seq<RawInterval<T>>, p: T) -> bool {
    forall|i: int| 0 <= i < s.len() ==> (#[trigger] s[i]).contains_spec(p)
}

/// Every interval of the sequence is well formed.
pub open spec fn all_wf<T: Ord>(s: Seq<RawInterval<T>>) -> bool {
    forall|i: int| 0 <= i < s.len() ==> (#[trigger] s[i]).wf()
}

impl<T: Ord + Copy> RawInterval<T> {
    /// Returns the enclosure of `Full` and all the given intervals, folding
    /// from `Full`.
    pub fn enclose_all(intervals: Vec<Self>) -> (r: Self)
        requires
            ordered::<T>(),
            all_wf(intervals@),
        ensures
            r is Full,
            forall|p: T| seq_contains(intervals@, p) ==> #[trigger] r.contains_spec(p),
    {
        let mut acc = RawInterval::Full;
        let mut k: usize = 0;
        while k < intervals.len()
            invariant
                ordered::<T>(),
                k <= intervals@.len(),
                acc is Full,
            decreases intervals@.len() - k,
        {
            proof {
                lemma_bound_ops(Bound::<T>::Infinite, intervals@[k as int].lower_spec());
            }
            acc = acc.enclose(&intervals[k]);
            k = k + 1;
        }
        acc
    }

    /// Returns the intersection of all the given intervals, folding from
    /// `Full`.
    pub fn intersect_all(intervals: Vec<Self>) -> (r: Self)
        requires
            ordered::<T>(),
            all_wf(intervals@),
        ensures
            r == intersect_fold(intervals@),
            r.wf(),
            forall|p: T| #[trigger] r.contains_spec(p) == seq_contains_all(intervals@, p),
    {
        let mut acc = RawInterval::Full;
        let mut k: usize = 0;
        while k < intervals.len()
            invariant
                ordered::<T>(),
                all_wf(intervals@),
                k <= intervals@.len(),
                acc.wf(),
                acc == intersect_fold(intervals@.take(k as int)),
                forall|p: T| #[trigger] acc.contains_spec(p) == seq_contains_all(intervals@.take(k as int), p),
            decreases intervals@.len() - k,
        {
            let ghost old_acc = acc;
            acc = acc.intersect(&intervals[k]);
            proof {
                assert(intervals@.take(k + 1).drop_last() =~= intervals@.take(k as int));
                assert(intervals@.take(k + 1).last() == intervals@[k as int]);
            }
            proof {
                let t = intervals@.take(k as int);
                let t1 = intervals@.take(k + 1);
                assert(t1 =~= t.push(intervals@[k as int]));
                assert forall|p: T| #[trigger] acc.contains_spec(p) == seq_contains_all(t1, p) by {
                    assert(old_acc.contains_spec(p) == seq_contains_all(t, p));
                    if seq_contains_all(t, p) && intervals@[k as int].contains_spec(p) {
                        assert forall|i: int| 0 <= i < t1.len() implies (#[trigger] t1[i]).contains_spec(p) by {
                            if i < k {
                                assert(t1[i] == t[i]);
                            }
                        }
                    }
                    if seq_contains_all(t1, p) {
                        assert(t1[k as int].contains_spec(p));
                        assert forall|i: int| 0 <= i < t.len() implies (#[trigger] t[i]).contains_spec(p) by {
                            assert(t1[i] == t[i]);
                        }
                    }
                }
            }
            k = k + 1;
        }
        proof {
            assert(intervals@.take(k as int) =~= intervals@);
        }
        acc
    }

    /// Returns intervals that together hold the points of all the given
    /// intervals, merging each into the first earlier one that it
    /// intersects or touches; a `Full` interval swallows everything.
    pub fn union_all(intervals: Vec<Self>) -> (r: Vec<Self>)
        requires
            ordered::<T>(),
            all_wf(intervals@),
        ensures
            r@ == union_all_spec(intervals@),
            all_wf(r@),
            forall|i: int| 0 <= i < r@.len() ==> !(#[trigger] r@[i] is Empty),
            forall|p: T| #[trigger] seq_contains(r@, p) == seq_contains(intervals@, p),
            (exists|i: int| 0 <= i < intervals@.len() && (#[trigger] intervals@[i]) is Full) ==> r@
                == seq![RawInterval::<T>::Full],
    {
        let mut prev: Vec<Self> = Vec::new();
        let mut k: usize = 0;
        while k < intervals.len()
            invariant
                ordered::<T>(),
                all_wf(intervals@),
                k <= intervals@.len(),
                all_wf(prev@),
                forall|i: int| 0 <= i < prev@.len() ==> !(#[trigger] prev@[i] is Empty),
                forall|p: T| #[trigger] seq_contains(prev@, p) == seq_contains(intervals@.take(k as int), p),
                prev@ == union_all_spec(intervals@.take(k as int)),
                (exists|i: int| 0 <= i < k && (#[trigger] intervals@[i]) is Full) ==> prev@ == seq![
                    RawInterval::<T>::Full,
                ],
            decreases intervals@.len() - k,
        {
            let next = intervals[k];
            let ghost old_prev = prev@;
            proof {
                assert(intervals@.take(k + 1) =~= intervals@.take(k as int).push(next));
                assert(intervals@.take(k + 1).drop_last() =~= intervals@.take(k as int));
                lemma_seq_contains_push(intervals@.take(k as int), next);
                if !(next is Empty) && !(next is Full) && old_prev == seq![RawInterval::<T>::Full] {
                    lemma_full_joins(next);
                }
            }
            if next.is_full() {
                prev = vec![RawInterval::Full];
                proof {
                    assert forall|p: T| #[trigger] seq_contains(prev@, p) == seq_contains(intervals@.take(k + 1), p) by {
                        assert(prev@[0].contains_spec(p));
                    }
                }
            } else if !next.is_empty() {
                let mut append = true;
                let mut j: usize = 0;
                while append && j < prev.len()
                    invariant
                        ordered::<T>(),
                        next.wf(),
                        !(next is Empty),
                        j <= prev@.len(),
                        all_wf(prev@),
                        forall|i: int| 0 <= i < prev@.len() ==> !(#[trigger] prev@[i] is Empty),
                        append ==> prev@ == old_prev,
                        append ==> first_join(old_prev, next, 0) == first_join(old_prev, next, j as int),
                        !append ==> j < old_prev.len() && first_join(old_prev, next, 0) == j
                            && prev@ == old_prev.update(j as int, old_prev[j as int].enclose_spec(next)),
                        forall|p: T| #[trigger] seq_contains(prev@, p) == (if append {
                            seq_contains(old_prev, p)
                        } else {
                            seq_contains(old_prev, p) || next.contains_spec(p)
                        }),
                    decreases prev@.len() - j + (if append { 1int } else { 0int }),
                {
                    let item = prev[j];
                    proof {
                        assert(prev@ == old_prev);
                        assert(first_join(old_prev, next, j as int) == if joins(item, next) {
                            j as int
                        } else {
                            first_join(old_prev, next, j + 1)
                        });
                    }
                    if item.intersects(&next) || item.adjacent(&next) {
                        proof {
                            lemma_enclose(item, next);
                            lemma_enclose_joined(item, next);
                            lemma_new(
                                least_union_spec(item.lower_spec(), next.lower_spec()),
                                greatest_union_spec(item.upper_spec(), next.upper_spec()),
                            );
                        }
                        let e = item.enclose(&next);
                        proof {
                            lemma_order::<T>();
                            assert(!(e is Empty));
                            lemma_seq_contains_update(prev@, j as int, e, next);
                        }
                        prev.set(j, e);
                        append = false;
                    } else {
                        j = j + 1;
                    }
                }
                if append {
                    proof {
                        lemma_seq_contains_push(prev@, next);
                    }
                    prev.push(next);
                }
            }
            proof {
                assert(intervals@.take(k + 1).last() == next);
                assert(union_all_spec(intervals@.take(k + 1)) == union_step(old_prev, next));
                if next is Full {
                    assert(prev@ =~= seq![RawInterval::<T>::Full]);
                }
                assert(prev@ == union_all_spec(intervals@.take(k + 1)));
                if exists|i: int| 0 <= i < k + 1 && (#[trigger] intervals@[i]) is Full {
                    if !(next is Full) {
                        let i = choose|i: int| 0 <= i < k + 1 && (#[trigger] intervals@[i]) is Full;
                        assert(i < k);
                        assert(old_prev == seq![RawInterval::<T>::Full]);
                        if !(next is Empty) {
                            assert(prev@ =~= seq![RawInterval::<T>::Full]);
                        }
                    }
                }
            }
            k = k + 1;
        }
        proof {
            assert(intervals@.take(k as int) =~= intervals@);
        }
        prev
    }
}

/// The intersections of `a` with each piece, in order, leaving out those
/// that are `Empty`.
pub open spec fn kept_pieces<T: Ord>(a: RawInterval<T>, pieces: Seq<RawInterval<T>>) -> Seq<RawInterval<T>>
    decreases pieces.len(),
{
    if pieces.len() == 0 {
        seq![]
    } else if a.intersect_spec(pieces.last()) is Empty {
        kept_pieces(a, pieces.drop_last())
    } else {
        kept_pieces(a, pieces.drop_last()).push(a.intersect_spec(pieces.last()))
    }
}

/// The intersection of the intervals, folded from `Full` in order.
pub open spec fn intersect_fold<T: Ord>(s: Seq<RawInterval<T>>) -> RawInterval<T>
    decreases s.len(),
{
    if s.len() == 0 {
        RawInterval::Full
    } else {
        intersect_fold(s.drop_last()).intersect_spec(s.last())
    }
}

/// Whether two intervals intersect or touch, so that a union joins them.
pub open spec fn joins<T: Ord>(a: RawInterval<T>, b: RawInterval<T>) -> bool {
    a.intersects_spec(b) || a.adjacent_spec(b)
}

/// The first position from `j` on whose interval joins `next`; the length
/// where none does.
pub open spec fn first_join<T: Ord>(prev: Seq<RawInterval<T>>, next: RawInterval<T>, j: int) -> int
    decreases prev.len() - j,
{
    if j < 0 || j >= prev.len() {
        prev.len() as int
    } else if joins(prev[j], next) {
        j
    } else {
        first_join(prev, next, j + 1)
    }
}

/// One step of `union_all`: `Full` replaces everything, `Empty` changes
/// nothing, any other interval is enclosed with the first earlier piece it
/// joins, or else appended.
pub open spec fn union_step<T: Ord>(prev: Seq<RawInterval<T>>, next: RawInterval<T>) -> Seq<RawInterval<T>> {
    if next is Full {
        seq![RawInterval::Full]
    } else if next is Empty {
        prev
    } else if first_join(prev, next, 0) < prev.len() {
        prev.update(first_join(prev, next, 0), prev[first_join(prev, next, 0)].enclose_spec(next))
    } else {
        prev.push(next)
    }
}

/// What `union_all` returns: its steps folded over the intervals in order.
pub open spec fn union_all_spec<T: Ord>(s: Seq<RawInterval<T>>) -> Seq<RawInterval<T>>
    decreases s.len(),
{
    if s.len() == 0 {
        seq![]
    } else {
        union_step(union_all_spec(s.drop_last()), s.last())
    }
}

/// `Full` joins every non-empty interval, and encloses it in `Full`.
pub proof fn lemma_full_joins<T: Ord>(x: RawInterval<T>)
    requires
        ordered::<T>(),
        x.wf(),
        !(x is Empty),
    ensures
        first_join(seq![RawInterval::<T>::Full], x, 0) == 0,
        RawInterval::<T>::Full.enclose_spec(x) == RawInterval::<T>::Full,
{
    lemma_order::<T>();
    assert(joins(RawInterval::<T>::Full, x));
}

/// A non-empty interval holds exactly the points that both of its bounds
/// admit.
pub proof fn lemma_contains_bounds<T: Ord>(i: RawInterval<T>)
    requires
        ordered::<T>(),
        !(i is Empty),
    ensures
        forall|p: T| #[trigger]
            i.contains_spec(p) == (lower_admits(i.lower_spec(), p) && upper_admits(i.upper_spec(), p)),
{
    lemma_order::<T>();
}

/// The interval between two bounds is well formed and holds the points that
/// both admit.
pub proof fn lemma_new<T: Ord>(lower: Bound<T>, upper: Bound<T>)
    requires
        ordered::<T>(),
    ensures
        RawInterval::new_spec(lower, upper).wf(),
        forall|p: T| #[trigger]
            RawInterval::new_spec(lower, upper).contains_spec(p) == (lower_admits(lower, p)
                && upper_admits(upper, p)),
        !reversed(lower, upper) ==> RawInterval::new_spec(lower, upper).lower_spec() == lower
            && RawInterval::new_spec(lower, upper).upper_spec() == upper,
{
    lemma_order::<T>();
}

/// The intersection is well formed and holds the points that both hold.
pub proof fn lemma_intersect<T: Ord>(a: RawInterval<T>, b: RawInterval<T>)
    requires
        ordered::<T>(),
        a.wf(),
        b.wf(),
    ensures
        a.intersect_spec(b).wf(),
        forall|p: T| #[trigger]
            a.intersect_spec(b).contains_spec(p) == (a.contains_spec(p) && b.contains_spec(p)),
{
    if !(a is Empty) && !(b is Empty) {
        lemma_contains_bounds(a);
        lemma_contains_bounds(b);
        lemma_bound_ops(a.lower_spec(), b.lower_spec());
        lemma_bound_ops(a.upper_spec(), b.upper_spec());
        lemma_new(
            greatest_intersect_spec(a.lower_spec(), b.lower_spec()),
            least_intersect_spec(a.upper_spec(), b.upper_spec()),
        );
    }
}

/// The enclosure is well formed and holds every point of either interval.
pub proof fn lemma_enclose<T: Ord>(a: RawInterval<T>, b: RawInterval<T>)
    requires
        ordered::<T>(),
        a.wf(),
        b.wf(),
    ensures
        a.enclose_spec(b).wf(),
        forall|p: T| a.contains_spec(p) || b.contains_spec(p) ==> #[trigger]
            a.enclose_spec(b).contains_spec(p),
        !(a is Empty) && !(b is Empty) ==> forall|p: T| #[trigger]
            a.enclose_spec(b).contains_spec(p) == (lower_admits(
                least_union_spec(a.lower_spec(), b.lower_spec()),
                p,
            ) && upper_admits(greatest_union_spec(a.upper_spec(), b.upper_spec()), p)),
{
    lemma_order::<T>();
    if !(a is Empty) {
        lemma_contains_bounds(a);
    }
    if !(b is Empty) {
        lemma_contains_bounds(b);
    }
    if !(a is Empty) && !(b is Empty) {
        lemma_bound_ops(a.lower_spec(), b.lower_spec());
        lemma_bound_ops(a.upper_spec(), b.upper_spec());
        lemma_new(
            least_union_spec(a.lower_spec(), b.lower_spec()),
            greatest_union_spec(a.upper_spec(), b.upper_spec()),
        );
    } else if !(a is Empty) {
        lemma_new(a.lower_spec(), a.upper_spec());
    } else if !(b is Empty) {
        lemma_new(b.lower_spec(), b.upper_spec());
    }
}

/// Where two intervals intersect or are adjacent, their enclosure holds no
/// point that neither holds.
pub proof fn lemma_enclose_joined<T: Ord>(a: RawInterval<T>, b: RawInterval<T>)
    requires
        ordered::<T>(),
        a.wf(),
        b.wf(),
        !(a is Empty),
        !(b is Empty),
        a.intersects_spec(b) || a.adjacent_spec(b),
    ensures
        forall|p: T| #[trigger]
            a.enclose_spec(b).contains_spec(p) == (a.contains_spec(p) || b.contains_spec(p)),
{
    lemma_order::<T>();
    lemma_enclose(a, b);
    lemma_contains_bounds(a);
    lemma_contains_bounds(b);
    lemma_bound_ops(a.lower_spec(), b.lower_spec());
    lemma_bound_ops(a.upper_spec(), b.upper_spec());
    assert forall|p: T| #[trigger] a.enclose_spec(b).contains_spec(p) implies a.contains_spec(p)
        || b.contains_spec(p) by {
        if !a.contains_spec(p) && !b.contains_spec(p) {
            let gi = greatest_intersect_spec(a.lower_spec(), b.lower_spec());
            let li = least_intersect_spec(a.upper_spec(), b.upper_spec());
            assert(lower_admits(a.lower_spec(), p) || lower_admits(b.lower_spec(), p));
            assert(upper_admits(a.upper_spec(), p) || upper_admits(b.upper_spec(), p));
            if a.intersects_spec(b) {
                assert(!reversed(gi, li));
            }
        }
    }
}

/// An interval holds every point between two of its points.
pub proof fn lemma_convex<T: Ord>(c: RawInterval<T>, x: T, y: T, p: T)
    requires
        ordered::<T>(),
        c.contains_spec(x),
        c.contains_spec(y),
        le(x, p),
        le(p, y),
    ensures
        c.contains_spec(p),
{
    lemma_order::<T>();
}

/// The enclosure of two intervals lies inside every interval that holds the
/// points of both, where each of the two is `Empty` or holds a point.
pub proof fn lemma_enclose_minimal<T: Ord>(a: RawInterval<T>, b: RawInterval<T>, c: RawInterval<T>)
    requires
        ordered::<T>(),
        a.wf(),
        b.wf(),
        c.wf(),
        a is Empty || a.inhabited(),
        b is Empty || b.inhabited(),
        forall|p: T| a.contains_spec(p) || b.contains_spec(p) ==> #[trigger] c.contains_spec(p),
    ensures
        forall|p: T| a.contains_spec(p) || b.contains_spec(p) ==> #[trigger] a.enclose_spec(b).contains_spec(p),
        forall|p: T| #[trigger] a.enclose_spec(b).contains_spec(p) ==> c.contains_spec(p),
{
    lemma_order::<T>();
    lemma_enclose(a, b);
    if !(a is Empty) {
        lemma_contains_bounds(a);
    }
    if !(b is Empty) {
        lemma_contains_bounds(b);
    }
    if a is Empty && !(b is Empty) {
        lemma_new(b.lower_spec(), b.upper_spec());
    }
    if !(a is Empty) && b is Empty {
        lemma_new(a.lower_spec(), a.upper_spec());
    }
    assert forall|p: T| #[trigger] a.enclose_spec(b).contains_spec(p) implies c.contains_spec(p) by {
        if !a.contains_spec(p) && !b.contains_spec(p) && !(a is Empty) && !(b is Empty) {
            let xa = choose|q: T| a.contains_spec(q);
            let xb = choose|q: T| b.contains_spec(q);
            lemma_bound_ops(a.lower_spec(), b.lower_spec());
            lemma_bound_ops(a.upper_spec(), b.upper_spec());
            assert(c.contains_spec(xa));
            assert(c.contains_spec(xb));
            if lower_admits(a.lower_spec(), p) {
                assert(!upper_admits(a.upper_spec(), p));
                assert(lt(xa, p));
                assert(upper_admits(b.upper_spec(), p));
                assert(!lower_admits(b.lower_spec(), p));
                assert(lt(p, xb));
                lemma_convex(c, xa, xb, p);
            } else {
                assert(lower_admits(b.lower_spec(), p));
                assert(!upper_admits(b.upper_spec(), p));
                assert(lt(xb, p));
                assert(upper_admits(a.upper_spec(), p));
                assert(lt(p, xa));
                lemma_convex(c, xb, xa, p);
            }
        }
    }
}

/// The pieces of the complement hold exactly the points that the interval
/// does not.
pub proof fn lemma_complement<T: Ord>(a: RawInterval<T>)
    requires
        ordered::<T>(),
        a.wf(),
    ensures
        forall|i: int| 0 <= i < a.complement_spec().len() ==> (#[trigger] a.complement_spec()[i]).wf(),
        forall|p: T| #[trigger] seq_contains(a.complement_spec(), p) == !a.contains_spec(p),
{
    lemma_order::<T>();
    let c = a.complement_spec();
    assert forall|p: T| #[trigger] seq_contains(c, p) == !a.contains_spec(p) by {
        if c.len() > 0 {
            assert(c[0].contains_spec(p) ==> seq_contains(c, p));
        }
        if c.len() > 1 {
            assert(c[1].contains_spec(p) ==> seq_contains(c, p));
        }
    }
}

} // verus!
