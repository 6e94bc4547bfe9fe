//! A single endpoint of an interval.

use crate::order::{compare, le, lemma_order, lt, ordered};
use core::cmp::Ordering;
use vstd::prelude::*;

verus! {

/// An interval endpoint: a point that is included, a point that is
/// excluded, or no endpoint at all in that direction.
#[derive(Debug, Clone, Copy, PartialEq, Eq, Hash)]
pub enum Bound<T> {
    /// The endpoint belongs to the interval.
    Include(T),
    /// The endpoint does not belong to the interval.
    Exclude(T),
    /// The interval is unbounded in this direction.
    Infinite,
}

/// The point of a finite bound.
pub open spec fn bound_point<T>(b: Bound<T>) -> T {
    match b {
        Bound::Include(v) => v,
        Bound::Exclude(v) => v,
        Bound::Infinite => arbitrary(),
    }
}

/// Whether `p` lies on the inner side of `b` taken as a lower bound.
pub open spec fn lower_admits<T: Ord>(b: Bound<T>, p: T) -> bool {
    match b {
        Bound::Include(v) => le(v, p),
        Bound::Exclude(v) => lt(v, p),
        Bound::Infinite => true,
    }
}

/// Whether `p` lies on the inner side of `b` taken as an upper bound.
pub open spec fn upper_admits<T: Ord>(b: Bound<T>, p: T) -> bool {
    match b {
        Bound::Include(v) => le(p, v),
        Bound::Exclude(v) => lt(p, v),
        Bound::Infinite => true,
    }
}

/// The lower bound of a union: the lesser point, inclusion winning a tie.
pub open spec fn least_union_spec<T: Ord>(a: Bound<T>, b: Bound<T>) -> Bound<T> {
    match (a, b) {
        (Bound::Infinite, _) | (_, Bound::Infinite) => Bound::Infinite,
        _ => if lt(bound_point(a), bound_point(b)) || (bound_point(a) == bound_point(b) && a is Include) { a } else { b },
    }
}

/// The upper bound of a union: the greater point, inclusion winning a tie.
pub open spec fn greatest_union_spec<T: Ord>(a: Bound<T>, b: Bound<T>) -> Bound<T> {
    match (a, b) {
        (Bound::Infinite, _) | (_, Bound::Infinite) => Bound::Infinite,
        _ => if lt(bound_point(b), bound_point(a)) || (bound_point(a) == bound_point(b) && a is Include) { a } else { b },
    }
}

/// The lower bound of an intersection: the greater point, exclusion winning a
/// tie.
pub open spec fn greatest_intersect_spec<T: Ord>(a: Bound<T>, b: Bound<T>) -> Bound<T> {
    match (a, b) {
        (Bound::Infinite, _) => b,
        (_, Bound::Infinite) => a,
        _ => if lt(bound_point(b), bound_point(a)) || (bound_point(a) == bound_point(b) && a is Exclude) { a } else { b },
    }
}

/// The upper bound of an intersection: the lesser point, exclusion winning a
/// tie.
pub open spec fn least_intersect_spec<T: Ord>(a: Bound<T>, b: Bound<T>) -> Bound<T> {
    match (a, b) {
        (Bound::Infinite, _) => b,
        (_, Bound::Infinite) => a,
        _ => if lt(bound_point(a), bound_point(b)) || (bound_point(a) == bound_point(b) && a is Exclude) { a } else { b },
    }
}

/// Two bounds at one point, one inclusive and one exclusive.
pub open spec fn union_adjacent_spec<T>(a: Bound<T>, b: Bound<T>) -> bool {
    match (a, b) {
        (Bound::Include(x), Bound::Exclude(y)) => x == y,
        (Bound::Exclude(x), Bound::Include(y)) => x == y,
        _ => false,
    }
}

/// What the four bound combinators admit, pointwise.
pub proof fn lemma_bound_ops<T: Ord>(a: Bound<T>, b: Bound<T>)
    requires
        ordered::<T>(),
    ensures
        forall|p: T|
            #![trigger lower_admits(least_union_spec(a, b), p)]
            lower_admits(least_union_spec(a, b), p) == (lower_admits(a, p) || lower_admits(b, p)),
        forall|p: T|
            #![trigger upper_admits(greatest_union_spec(a, b), p)]
            upper_admits(greatest_union_spec(a, b), p) == (upper_admits(a, p) || upper_admits(b, p)),
        forall|p: T|
            #![trigger lower_admits(greatest_intersect_spec(a, b), p)]
            lower_admits(greatest_intersect_spec(a, b), p) == (lower_admits(a, p) && lower_admits(b, p)),
        forall|p: T|
            #![trigger upper_admits(least_intersect_spec(a, b), p)]
            upper_admits(least_intersect_spec(a, b), p) == (upper_admits(a, p) && upper_admits(b, p)),
{
    lemma_order::<T>();
}

impl<T: Ord + Copy> Bound<T> {
    /// Returns the bound's point.
    pub fn as_ref(&self) -> (r: &T)
        requires
            !(self is Infinite),
        ensures
            *r == bound_point(*self),
    {
        match self {
            Bound::Include(v) => v,
            Bound::Exclude(v) => v,
            Bound::Infinite => unreached(),
        }
    }

    /// Returns whether the bound includes its point.
    pub fn is_inclusive(&self) -> (r: bool)
        ensures
            r == self is Include,
    {
        matches!(self, Bound::Include(_))
    }

    /// Returns whether the bound excludes its point.
    pub fn is_exclusive(&self) -> (r: bool)
        ensures
            r == self is Exclude,
    {
        matches!(self, Bound::Exclude(_))
    }

    /// Returns the lower bound that admits what either lower bound admits.
    pub fn least_union(&self, other: &Self) -> (r: Self)
        requires
            ordered::<T>(),
        ensures
            r == least_union_spec(*self, *other),
            forall|p: T| lower_admits(r, p) == (lower_admits(*self, p) || lower_admits(*other, p)),
    {
        proof {
            lemma_order::<T>();
            lemma_bound_ops(*self, *other);
        }
        match (self, other) {
            (Bound::Infinite, _) | (_, Bound::Infinite) => Bound::Infinite,
            _ => {
                let c = compare(self.as_ref(), other.as_ref());
                if matches!(c, Ordering::Less) || (matches!(c, Ordering::Equal) && self.is_inclusive()) {
                    *self
                } else {
                    *other
                }
            },
        }
    }

    /// Returns the upper bound that admits what either upper bound admits.
    pub fn greatest_union(&self, other: &Self) -> (r: Self)
        requires
            ordered::<T>(),
        ensures
            r == greatest_union_spec(*self, *other),
            forall|p: T| upper_admits(r, p) == (upper_admits(*self, p) || upper_admits(*other, p)),
    {
        proof {
            lemma_order::<T>();
            lemma_bound_ops(*self, *other);
        }
        match (self, other) {
            (Bound::Infinite, _) | (_, Bound::Infinite) => Bound::Infinite,
            _ => {
                let c = compare(self.as_ref(), other.as_ref());
                if matches!(c, Ordering::Greater) || (matches!(c, Ordering::Equal) && self.is_inclusive()) {
                    *self
                } else {
                    *other
                }
            },
        }
    }

    /// Returns the lower bound that admits what both lower bounds admit.
    pub fn greatest_intersect(&self, other: &Self) -> (r: Self)
        requires
            ordered::<T>(),
        ensures
            r == greatest_intersect_spec(*self, *other),
            forall|p: T| lower_admits(r, p) == (lower_admits(*self, p) && lower_admits(*other, p)),
    {
        proof {
            lemma_order::<T>();
            lemma_bound_ops(*self, *other);
        }
        match (self, other) {
            (Bound::Infinite, _) => *other,
            (_, Bound::Infinite) => *self,
            _ => {
                let c = compare(self.as_ref(), other.as_ref());
                if matches!(c, Ordering::Greater) || (matches!(c, Ordering::Equal) && self.is_exclusive()) {
                    *self
                } else {
                    *other
                }
            },
        }
    }

    /// Returns the upper bound that admits what both upper bounds admit.
    pub fn least_intersect(&self, other: &Self) -> (r: Self)
        requires
            ordered::<T>(),
        ensures
            r == least_intersect_spec(*self, *other),
            forall|p: T| upper_admits(r, p) == (upper_admits(*self, p) && upper_admits(*other, p)),
    {
        proof {
            lemma_order::<T>();
            lemma_bound_ops(*self, *other);
        }
        match (self, other) {
            (Bound::Infinite, _) => *other,
            (_, Bound::Infinite) => *self,
            _ => {
                let c = compare(self.as_ref(), other.as_ref());
                if matches!(c, Ordering::Less) || (matches!(c, Ordering::Equal) && self.is_exclusive()) {
                    *self
                } else {
                    *other
                }
            },
        }
    }

    /// Returns whether the two bounds name one point, one including it and
    /// the other excluding it.
    pub fn union_adjacent(&self, other: &Self) -> (r: bool)
        requires
            ordered::<T>(),
        ensures
            r == union_adjacent_spec(*self, *other),
    {
        match (self, other) {
            (Bound::Include(x), Bound::Exclude(y)) | (Bound::Exclude(x), Bound::Include(y)) => {
                matches!(compare(x, y), Ordering::Equal)
            },
            _ => false,
        }
    }
}

} // verus!
