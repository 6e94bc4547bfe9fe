//! Successors and predecessors of points, and the normal form of intervals
//! over types that have them.

use crate::order::{
    above_of, below_of, greatest, immediately_below, is_greatest, is_least, least, lemma_extremes,
    le, lemma_neighbours, lemma_order, ordered,
};
use crate::raw_interval::RawInterval;
use vstd::prelude::*;

verus! {

/// A point type whose points can be stepped through one by one, with a
/// least and a greatest point.
pub trait Finite: Ord + Copy + Sized {
    /// Returns the point right before this one, or `None` at the least
    /// point.
    fn pred(&self) -> (r: Option<Self>)
        ensures
            match r {
                Some(y) => immediately_below(y, *self),
                None => is_least(*self),
            };

    /// Returns the point right after this one, or `None` at the greatest
    /// point.
    fn succ(&self) -> (r: Option<Self>)
        ensures
            match r {
                Some(y) => immediately_below(*self, y),
                None => is_greatest(*self),
            };

    /// Returns the least point.
    fn minimum() -> (r: Self)
        ensures
            is_least(r);

    /// Returns the greatest point.
    fn maximum() -> (r: Self)
        ensures
            is_greatest(r);

    /// The type has a least and a greatest point, and every point but the
    /// greatest has a point right after it, every point but the least one
    /// right before it.
    proof fn lemma_finite(x: Self)
        ensures
            is_least(least::<Self>()),
            is_greatest(greatest::<Self>()),
            above_of(x) is None ==> is_greatest(x),
            below_of(x) is None ==> is_least(x),
    ;
}

/// Rewriting of a value into a normal form and back.
pub trait Normalize: Sized {
    /// What rewriting needs of the value.
    spec fn normalizable(self) -> bool;

    /// The normal form of the value.
    spec fn normal_form(self) -> Self;

    /// The denormal form of the value.
    spec fn denormal_form(self) -> Self;

    /// Rewrites the value into its normal form.
    fn normalize(&mut self)
        requires
            old(self).normalizable(),
        ensures
            *final(self) == old(self).normal_form(),
    ;

    /// Rewrites the value into its denormal form.
    fn denormalize(&mut self)
        requires
            old(self).normalizable(),
        ensures
            *final(self) == old(self).denormal_form(),
    ;

    /// Returns the normal form of the value.
    fn normalized(self) -> (r: Self)
        requires
            self.normalizable(),
        ensures
            r == self.normal_form(),
    {
        let mut s = self;
        s.normalize();
        s
    }

    /// Returns the denormal form of the value.
    fn denormalized(self) -> (r: Self)
        requires
            self.normalizable(),
        ensures
            r == self.denormal_form(),
    {
        let mut s = self;
        s.denormalize();
        s
    }
}

/// What `pred` returns is the point right before.
proof fn lemma_pred<T: Finite>(x: T, r: Option<T>)
    requires
        ordered::<T>(),
        match r {
            Some(y) => immediately_below(y, x),
            None => is_least(x),
        },
    ensures
        r == below_of(x),
{
    lemma_order::<T>();
    match r {
        Some(y) => lemma_neighbours(y, x),
        None => {
            if exists|y: T| immediately_below(y, x) {
                let y = choose|y: T| immediately_below(y, x);
                assert(crate::order::le(x, y));
            }
        },
    }
}

/// What `succ` returns is the point right after.
proof fn lemma_succ<T: Finite>(x: T, r: Option<T>)
    requires
        ordered::<T>(),
        match r {
            Some(y) => immediately_below(x, y),
            None => is_greatest(x),
        },
    ensures
        r == above_of(x),
{
    lemma_order::<T>();
    match r {
        Some(y) => lemma_neighbours(x, y),
        None => {
            if exists|y: T| immediately_below(x, y) {
                let y = choose|y: T| immediately_below(x, y);
                assert(crate::order::le(y, x));
            }
        },
    }
}

/// Normalization over a type whose points can be stepped through: every
/// interval becomes `Empty`, a point, or a closed interval.
impl<T: Finite> Normalize for RawInterval<T> {
    open spec fn normalizable(self) -> bool {
        ordered::<T>() && self.wf()
    }

    open spec fn normal_form(self) -> Self {
        match self {
            RawInterval::Empty => RawInterval::Empty,
            RawInterval::Point(p) => RawInterval::Point(p),
            RawInterval::Open(l, r) => match (above_of(l), below_of(r)) {
                (Some(a), Some(b)) => RawInterval::closed_spec(a, b),
                _ => RawInterval::Empty,
            },
            RawInterval::LeftOpen(l, r) => match above_of(l) {
                Some(a) => RawInterval::closed_spec(a, r),
                None => RawInterval::Empty,
            },
            RawInterval::RightOpen(l, r) => match below_of(r) {
                Some(b) => RawInterval::closed_spec(l, b),
                None => RawInterval::Empty,
            },
            RawInterval::Closed(l, r) => RawInterval::Closed(l, r),
            RawInterval::UpTo(r) => match below_of(r) {
                Some(b) => RawInterval::closed_spec(least::<T>(), b),
                None => RawInterval::Empty,
            },
            RawInterval::UpFrom(l) => match above_of(l) {
                Some(a) => RawInterval::closed_spec(a, greatest::<T>()),
                None => RawInterval::Empty,
            },
            RawInterval::To(p) => RawInterval::closed_spec(least::<T>(), p),
            RawInterval::From(p) => RawInterval::closed_spec(p, greatest::<T>()),
            RawInterval::Full => RawInterval::closed_spec(least::<T>(), greatest::<T>()),
        }
    }

    open spec fn denormal_form(self) -> Self {
        match self {
            RawInterval::Point(p) => match (below_of(p), above_of(p)) {
                (Some(l), Some(r)) => RawInterval::Open(l, r),
                (Some(l), None) => RawInterval::UpFrom(l),
                (None, Some(r)) => RawInterval::UpTo(r),
                (None, None) => RawInterval::Full,
            },
            RawInterval::LeftOpen(l, r) => match above_of(r) {
                Some(b) => RawInterval::Open(l, b),
                None => RawInterval::UpFrom(l),
            },
            RawInterval::RightOpen(l, r) => match below_of(l) {
                Some(a) => RawInterval::Open(a, r),
                None => RawInterval::UpTo(r),
            },
            RawInterval::Closed(l, r) => match (below_of(l), above_of(r)) {
                (Some(a), Some(b)) => RawInterval::Open(a, b),
                (Some(a), None) => RawInterval::UpFrom(a),
                (None, Some(b)) => RawInterval::UpTo(b),
                (None, None) => RawInterval::Full,
            },
            RawInterval::To(p) => match above_of(p) {
                Some(b) => RawInterval::UpTo(b),
                None => RawInterval::Full,
            },
            RawInterval::From(p) => match below_of(p) {
                Some(a) => RawInterval::UpFrom(a),
                None => RawInterval::Full,
            },
            _ => self,
        }
    }

    fn normalize(&mut self) {
        let min = T::minimum();
        let max = T::maximum();
        proof {
            lemma_extremes(min, max);
        }
        let n = match *self {
            RawInterval::Empty => RawInterval::Empty,
            RawInterval::Point(p) => RawInterval::Point(p),
            RawInterval::Open(l, r) => {
                let (a, b) = (l.succ(), r.pred());
                proof {
                    lemma_succ(l, a);
                    lemma_pred(r, b);
                }
                match (a, b) {
                    (Some(a), Some(b)) => RawInterval::closed(a, b),
                    _ => RawInterval::Empty,
                }
            },
            RawInterval::LeftOpen(l, r) => {
                let a = l.succ();
                proof {
                    lemma_succ(l, a);
                }
                match a {
                    Some(a) => RawInterval::closed(a, r),
                    None => RawInterval::Empty,
                }
            },
            RawInterval::RightOpen(l, r) => {
                let b = r.pred();
                proof {
                    lemma_pred(r, b);
                }
                match b {
                    Some(b) => RawInterval::closed(l, b),
                    None => RawInterval::Empty,
                }
            },
            RawInterval::Closed(l, r) => RawInterval::Closed(l, r),
            RawInterval::UpTo(r) => {
                let b = r.pred();
                proof {
                    lemma_pred(r, b);
                }
                match b {
                    Some(b) => RawInterval::closed(min, b),
                    None => RawInterval::Empty,
                }
            },
            RawInterval::UpFrom(l) => {
                let a = l.succ();
                proof {
                    lemma_succ(l, a);
                }
                match a {
                    Some(a) => RawInterval::closed(a, max),
                    None => RawInterval::Empty,
                }
            },
            RawInterval::To(p) => RawInterval::closed(min, p),
            RawInterval::From(p) => RawInterval::closed(p, max),
            RawInterval::Full => RawInterval::closed(min, max),
        };
        *self = n;
    }

    fn denormalize(&mut self) {
        let n = match *self {
            RawInterval::Point(p) => {
                let (a, b) = (p.pred(), p.succ());
                proof {
                    lemma_pred(p, a);
                    lemma_succ(p, b);
                }
                match (a, b) {
                    (Some(l), Some(r)) => RawInterval::Open(l, r),
                    (Some(l), None) => RawInterval::UpFrom(l),
                    (None, Some(r)) => RawInterval::UpTo(r),
                    (None, None) => RawInterval::Full,
                }
            },
            RawInterval::LeftOpen(l, r) => {
                let b = r.succ();
                proof {
                    lemma_succ(r, b);
                }
                match b {
                    Some(b) => RawInterval::Open(l, b),
                    None => RawInterval::UpFrom(l),
                }
            },
            RawInterval::RightOpen(l, r) => {
                let a = l.pred();
                proof {
                    lemma_pred(l, a);
                }
                match a {
                    Some(a) => RawInterval::Open(a, r),
                    None => RawInterval::UpTo(r),
                }
            },
            RawInterval::Closed(l, r) => {
                let (a, b) = (l.pred(), r.succ());
                proof {
                    lemma_pred(l, a);
                    lemma_succ(r, b);
                }
                match (a, b) {
                    (Some(a), Some(b)) => RawInterval::Open(a, b),
                    (Some(a), None) => RawInterval::UpFrom(a),
                    (None, Some(b)) => RawInterval::UpTo(b),
                    (None, None) => RawInterval::Full,
                }
            },
            RawInterval::To(p) => {
                let b = p.succ();
                proof {
                    lemma_succ(p, b);
                }
                match b {
                    Some(b) => RawInterval::UpTo(b),
                    None => RawInterval::Full,
                }
            },
            RawInterval::From(p) => {
                let a = p.pred();
                proof {
                    lemma_pred(p, a);
                }
                match a {
                    Some(a) => RawInterval::UpFrom(a),
                    None => RawInterval::Full,
                }
            },
            other => other,
        };
        *self = n;
    }
}

/// The neighbours that `below_of` and `above_of` name are immediate ones.
proof fn lemma_neighbour_facts<T: Ord>(x: T)
    ensures
        below_of(x) matches Some(a) ==> immediately_below(a, x),
        above_of(x) matches Some(b) ==> immediately_below(x, b),
{
}

/// Normalizing twice gives what normalizing once gives.
pub proof fn lemma_normalize_idempotent<T: Finite>(x: RawInterval<T>)
    requires
        ordered::<T>(),
        x.wf(),
    ensures
        x.normal_form().normal_form() == x.normal_form(),
{
    lemma_order::<T>();
}

/// Normalizing keeps the points of the interval, and its shape is well
/// formed; so does denormalizing.
pub proof fn lemma_normalize_contains<T: Finite>(x: RawInterval<T>, p: T)
    requires
        ordered::<T>(),
        x.wf(),
    ensures
        x.normal_form().wf(),
        x.normal_form().contains_spec(p) == x.contains_spec(p),
        x.denormal_form().wf(),
        x.denormal_form().contains_spec(p) == x.contains_spec(p),
{
    lemma_order::<T>();
    T::lemma_finite(p);
    assert(le(least::<T>(), p));
    assert(le(p, greatest::<T>()));
    match x {
        RawInterval::Point(v) | RawInterval::UpTo(v) | RawInterval::UpFrom(v) | RawInterval::To(v)
        | RawInterval::From(v) => lemma_neighbour_facts(v),
        RawInterval::Open(l, r) | RawInterval::LeftOpen(l, r) | RawInterval::RightOpen(l, r)
        | RawInterval::Closed(l, r) => {
            lemma_neighbour_facts(l);
            lemma_neighbour_facts(r);
        },
        _ => {},
    }
    match x {
        RawInterval::Point(v) => {
            T::lemma_finite(v);
            if is_least(v) {
                assert(le(v, p));
            }
            if is_greatest(v) {
                assert(le(p, v));
            }
            assert(x.normal_form().contains_spec(p) == x.contains_spec(p));
            assert(x.denormal_form().contains_spec(p) == x.contains_spec(p));
        },
        RawInterval::Open(l, r) => {
            T::lemma_finite(l);
            T::lemma_finite(r);
            assert(x.normal_form().contains_spec(p) == x.contains_spec(p));
            assert(x.denormal_form().contains_spec(p) == x.contains_spec(p));
        },
        RawInterval::LeftOpen(l, r) => {
            T::lemma_finite(l);
            T::lemma_finite(r);
            assert(x.normal_form().contains_spec(p) == x.contains_spec(p));
            assert(x.denormal_form().contains_spec(p) == x.contains_spec(p));
        },
        RawInterval::RightOpen(l, r) => {
            T::lemma_finite(l);
            T::lemma_finite(r);
            assert(x.normal_form().contains_spec(p) == x.contains_spec(p));
            assert(x.denormal_form().contains_spec(p) == x.contains_spec(p));
        },
        RawInterval::Closed(l, r) => {
            T::lemma_finite(l);
            T::lemma_finite(r);
            assert(x.normal_form().contains_spec(p) == x.contains_spec(p));
            assert(x.denormal_form().contains_spec(p) == x.contains_spec(p));
        },
        RawInterval::UpTo(v) | RawInterval::UpFrom(v) | RawInterval::To(v) | RawInterval::From(v) => {
            T::lemma_finite(v);
            assert(le(least::<T>(), v));
            assert(le(v, greatest::<T>()));
            if let Some(b) = below_of(v) {
                assert(le(least::<T>(), b));
            }
            if let Some(a) = above_of(v) {
                assert(le(a, greatest::<T>()));
            }
            if is_least(v) {
                assert(le(v, p));
            }
            if is_greatest(v) {
                assert(le(p, v));
            }
            assert(x.normal_form().contains_spec(p) == x.contains_spec(p));
            assert(x.denormal_form().contains_spec(p) == x.contains_spec(p));
        },
        _ => {},
    }
}

/// A point type that may know the point right before a given one; a type
/// that never knows it returns `None` throughout.
pub trait NextLower: Ord + Copy + Sized {
    /// The point right before this one that the type tells, if any.
    open spec fn next_lower_spec(&self) -> Option<Self> {
        None
    }

    /// Returns the point right before this one, where the type can tell it.
    fn next_lower(&self) -> (r: Option<Self>)
        ensures
            r == self.next_lower_spec(),
            r matches Some(y) ==> immediately_below(y, *self),
    ;
}

/// A point type that may know the point right after a given one; a type
/// that never knows it returns `None` throughout.
pub trait NextUpper: Ord + Copy + Sized {
    /// The point right after this one that the type tells, if any.
    open spec fn next_upper_spec(&self) -> Option<Self> {
        None
    }

    /// Returns the point right after this one, where the type can tell it.
    fn next_upper(&self) -> (r: Option<Self>)
        ensures
            r == self.next_upper_spec(),
            r matches Some(y) ==> immediately_below(*self, y),
    ;
}

/// `i8` steps by one between its least and greatest values.
impl Finite for i8 {
    fn pred(&self) -> (r: Option<Self>) {
        if *self != i8::MIN {
            Some(*self - 1)
        } else {
            None
        }
    }

    fn succ(&self) -> (r: Option<Self>) {
        if *self != i8::MAX {
            Some(*self + 1)
        } else {
            None
        }
    }

    fn minimum() -> (r: Self) {
        i8::MIN
    }

    fn maximum() -> (r: Self) {
        i8::MAX
    }

    proof fn lemma_finite(x: Self) {
        assert(is_least(i8::MIN));
        assert(is_greatest(i8::MAX));
        if x != i8::MAX {
            assert(immediately_below(x, (x + 1) as i8));
        }
        if x != i8::MIN {
            assert(immediately_below((x - 1) as i8, x));
        }
    }
}

impl NextLower for i8 {
    open spec fn next_lower_spec(&self) -> Option<Self> {
        if *self != i8::MIN {
            Some((*self - 1) as i8)
        } else {
            None
        }
    }

    fn next_lower(&self) -> (r: Option<Self>) {
        if *self != i8::MIN {
            Some(*self - 1)
        } else {
            None
        }
    }
}

impl NextUpper for i8 {
    open spec fn next_upper_spec(&self) -> Option<Self> {
        if *self != i8::MAX {
            Some((*self + 1) as i8)
        } else {
            None
        }
    }

    fn next_upper(&self) -> (r: Option<Self>) {
        if *self != i8::MAX {
            Some(*self + 1)
        } else {
            None
        }
    }
}

/// `i16` steps by one between its least and greatest values.
impl Finite for i16 {
    fn pred(&self) -> (r: Option<Self>) {
        if *self != i16::MIN {
            Some(*self - 1)
        } else {
            None
        }
    }

    fn succ(&self) -> (r: Option<Self>) {
        if *self != i16::MAX {
            Some(*self + 1)
        } else {
            None
        }
    }

    fn minimum() -> (r: Self) {
        i16::MIN
    }

    fn maximum() -> (r: Self) {
        i16::MAX
    }

    proof fn lemma_finite(x: Self) {
        assert(is_least(i16::MIN));
        assert(is_greatest(i16::MAX));
        if x != i16::MAX {
            assert(immediately_below(x, (x + 1) as i16));
        }
        if x != i16::MIN {
            assert(immediately_below((x - 1) as i16, x));
        }
    }
}

impl NextLower for i16 {
    open spec fn next_lower_spec(&self) -> Option<Self> {
        if *self != i16::MIN {
            Some((*self - 1) as i16)
        } else {
            None
        }
    }

    fn next_lower(&self) -> (r: Option<Self>) {
        if *self != i16::MIN {
            Some(*self - 1)
        } else {
            None
        }
    }
}

impl NextUpper for i16 {
    open spec fn next_upper_spec(&self) -> Option<Self> {
        if *self != i16::MAX {
            Some((*self + 1) as i16)
        } else {
            None
        }
    }

    fn next_upper(&self) -> (r: Option<Self>) {
        if *self != i16::MAX {
            Some(*self + 1)
        } else {
            None
        }
    }
}

/// `i32` steps by one between its least and greatest values.
impl Finite for i32 {
    fn pred(&self) -> (r: Option<Self>) {
        if *self != i32::MIN {
            Some(*self - 1)
        } else {
            None
        }
    }

    fn succ(&self) -> (r: Option<Self>) {
        if *self != i32::MAX {
            Some(*self + 1)
        } else {
            None
        }
    }

    fn minimum() -> (r: Self) {
        i32::MIN
    }

    fn maximum() -> (r: Self) {
        i32::MAX
    }

    proof fn lemma_finite(x: Self) {
        assert(is_least(i32::MIN));
        assert(is_greatest(i32::MAX));
        if x != i32::MAX {
            assert(immediately_below(x, (x + 1) as i32));
        }
        if x != i32::MIN {
            assert(immediately_below((x - 1) as i32, x));
        }
    }
}

impl NextLower for i32 {
    open spec fn next_lower_spec(&self) -> Option<Self> {
        if *self != i32::MIN {
            Some((*self - 1) as i32)
        } else {
            None
        }
    }

    fn next_lower(&self) -> (r: Option<Self>) {
        if *self != i32::MIN {
            Some(*self - 1)
        } else {
            None
        }
    }
}

impl NextUpper for i32 {
    open spec fn next_upper_spec(&self) -> Option<Self> {
        if *self != i32::MAX {
            Some((*self + 1) as i32)
        } else {
            None
        }
    }

    fn next_upper(&self) -> (r: Option<Self>) {
        if *self != i32::MAX {
            Some(*self + 1)
        } else {
            None
        }
    }
}

/// `i64` steps by one between its least and greatest values.
impl Finite for i64 {
    fn pred(&self) -> (r: Option<Self>) {
        if *self != i64::MIN {
            Some(*self - 1)
        } else {
            None
        }
    }

    fn succ(&self) -> (r: Option<Self>) {
        if *self != i64::MAX {
            Some(*self + 1)
        } else {
            None
        }
    }

    fn minimum() -> (r: Self) {
        i64::MIN
    }

    fn maximum() -> (r: Self) {
        i64::MAX
    }

    proof fn lemma_finite(x: Self) {
        assert(is_least(i64::MIN));
        assert(is_greatest(i64::MAX));
        if x != i64::MAX {
            assert(immediately_below(x, (x + 1) as i64));
        }
        if x != i64::MIN {
            assert(immediately_below((x - 1) as i64, x));
        }
    }
}

impl NextLower for i64 {
    open spec fn next_lower_spec(&self) -> Option<Self> {
        if *self != i64::MIN {
            Some((*self - 1) as i64)
        } else {
            None
        }
    }

    fn next_lower(&self) -> (r: Option<Self>) {
        if *self != i64::MIN {
            Some(*self - 1)
        } else {
            None
        }
    }
}

impl NextUpper for i64 {
    open spec fn next_upper_spec(&self) -> Option<Self> {
        if *self != i64::MAX {
            Some((*self + 1) as i64)
        } else {
            None
        }
    }

    fn next_upper(&self) -> (r: Option<Self>) {
        if *self != i64::MAX {
            Some(*self + 1)
        } else {
            None
        }
    }
}

/// `i128` steps by one between its least and greatest values.
impl Finite for i128 {
    fn pred(&self) -> (r: Option<Self>) {
        if *self != i128::MIN {
            Some(*self - 1)
        } else {
            None
        }
    }

    fn succ(&self) -> (r: Option<Self>) {
        if *self != i128::MAX {
            Some(*self + 1)
        } else {
            None
        }
    }

    fn minimum() -> (r: Self) {
        i128::MIN
    }

    fn maximum() -> (r: Self) {
        i128::MAX
    }

    proof fn lemma_finite(x: Self) {
        assert(is_least(i128::MIN));
        assert(is_greatest(i128::MAX));
        if x != i128::MAX {
            assert(immediately_below(x, (x + 1) as i128));
        }
        if x != i128::MIN {
            assert(immediately_below((x - 1) as i128, x));
        }
    }
}

impl NextLower for i128 {
    open spec fn next_lower_spec(&self) -> Option<Self> {
        if *self != i128::MIN {
            Some((*self - 1) as i128)
        } else {
            None
        }
    }

    fn next_lower(&self) -> (r: Option<Self>) {
        if *self != i128::MIN {
            Some(*self - 1)
        } else {
            None
        }
    }
}

impl NextUpper for i128 {
    open spec fn next_upper_spec(&self) -> Option<Self> {
        if *self != i128::MAX {
            Some((*self + 1) as i128)
        } else {
            None
        }
    }

    fn next_upper(&self) -> (r: Option<Self>) {
        if *self != i128::MAX {
            Some(*self + 1)
        } else {
            None
        }
    }
}

/// `isize` steps by one between its least and greatest values.
impl Finite for isize {
    fn pred(&self) -> (r: Option<Self>) {
        if *self != isize::MIN {
            Some(*self - 1)
        } else {
            None
        }
    }

    fn succ(&self) -> (r: Option<Self>) {
        if *self != isize::MAX {
            Some(*self + 1)
        } else {
            None
        }
    }

    fn minimum() -> (r: Self) {
        isize::MIN
    }

    fn maximum() -> (r: Self) {
        isize::MAX
    }

    proof fn lemma_finite(x: Self) {
        assert(is_least(isize::MIN));
        assert(is_greatest(isize::MAX));
        if x != isize::MAX {
            assert(immediately_below(x, (x + 1) as isize));
        }
        if x != isize::MIN {
            assert(immediately_below((x - 1) as isize, x));
        }
    }
}

impl NextLower for isize {
    open spec fn next_lower_spec(&self) -> Option<Self> {
        if *self != isize::MIN {
            Some((*self - 1) as isize)
        } else {
            None
        }
    }

    fn next_lower(&self) -> (r: Option<Self>) {
        if *self != isize::MIN {
            Some(*self - 1)
        } else {
            None
        }
    }
}

impl NextUpper for isize {
    open spec fn next_upper_spec(&self) -> Option<Self> {
        if *self != isize::MAX {
            Some((*self + 1) as isize)
        } else {
            None
        }
    }

    fn next_upper(&self) -> (r: Option<Self>) {
        if *self != isize::MAX {
            Some(*self + 1)
        } else {
            None
        }
    }
}

/// `u8` steps by one between its least and greatest values.
impl Finite for u8 {
    fn pred(&self) -> (r: Option<Self>) {
        if *self != u8::MIN {
            Some(*self - 1)
        } else {
            None
        }
    }

    fn succ(&self) -> (r: Option<Self>) {
        if *self != u8::MAX {
            Some(*self + 1)
        } else {
            None
        }
    }

    fn minimum() -> (r: Self) {
        u8::MIN
    }

    fn maximum() -> (r: Self) {
        u8::MAX
    }

    proof fn lemma_finite(x: Self) {
        assert(is_least(u8::MIN));
        assert(is_greatest(u8::MAX));
        if x != u8::MAX {
            assert(immediately_below(x, (x + 1) as u8));
        }
        if x != u8::MIN {
            assert(immediately_below((x - 1) as u8, x));
        }
    }
}

impl NextLower for u8 {
    open spec fn next_lower_spec(&self) -> Option<Self> {
        if *self != u8::MIN {
            Some((*self - 1) as u8)
        } else {
            None
        }
    }

    fn next_lower(&self) -> (r: Option<Self>) {
        if *self != u8::MIN {
            Some(*self - 1)
        } else {
            None
        }
    }
}

impl NextUpper for u8 {
    open spec fn next_upper_spec(&self) -> Option<Self> {
        if *self != u8::MAX {
            Some((*self + 1) as u8)
        } else {
            None
        }
    }

    fn next_upper(&self) -> (r: Option<Self>) {
        if *self != u8::MAX {
            Some(*self + 1)
        } else {
            None
        }
    }
}

/// `u16` steps by one between its least and greatest values.
impl Finite for u16 {
    fn pred(&self) -> (r: Option<Self>) {
        if *self != u16::MIN {
            Some(*self - 1)
        } else {
            None
        }
    }

    fn succ(&self) -> (r: Option<Self>) {
        if *self != u16::MAX {
            Some(*self + 1)
        } else {
            None
        }
    }

    fn minimum() -> (r: Self) {
        u16::MIN
    }

    fn maximum() -> (r: Self) {
        u16::MAX
    }

    proof fn lemma_finite(x: Self) {
        assert(is_least(u16::MIN));
        assert(is_greatest(u16::MAX));
        if x != u16::MAX {
            assert(immediately_below(x, (x + 1) as u16));
        }
        if x != u16::MIN {
            assert(immediately_below((x - 1) as u16, x));
        }
    }
}

impl NextLower for u16 {
    open spec fn next_lower_spec(&self) -> Option<Self> {
        if *self != u16::MIN {
            Some((*self - 1) as u16)
        } else {
            None
        }
    }

    fn next_lower(&self) -> (r: Option<Self>) {
        if *self != u16::MIN {
            Some(*self - 1)
        } else {
            None
        }
    }
}

impl NextUpper for u16 {
    open spec fn next_upper_spec(&self) -> Option<Self> {
        if *self != u16::MAX {
            Some((*self + 1) as u16)
        } else {
            None
        }
    }

    fn next_upper(&self) -> (r: Option<Self>) {
        if *self != u16::MAX {
            Some(*self + 1)
        } else {
            None
        }
    }
}

/// `u32` steps by one between its least and greatest values.
impl Finite for u32 {
    fn pred(&self) -> (r: Option<Self>) {
        if *self != u32::MIN {
            Some(*self - 1)
        } else {
            None
        }
    }

    fn succ(&self) -> (r: Option<Self>) {
        if *self != u32::MAX {
            Some(*self + 1)
        } else {
            None
        }
    }

    fn minimum() -> (r: Self) {
        u32::MIN
    }

    fn maximum() -> (r: Self) {
        u32::MAX
    }

    proof fn lemma_finite(x: Self) {
        assert(is_least(u32::MIN));
        assert(is_greatest(u32::MAX));
        if x != u32::MAX {
            assert(immediately_below(x, (x + 1) as u32));
        }
        if x != u32::MIN {
            assert(immediately_below((x - 1) as u32, x));
        }
    }
}

impl NextLower for u32 {
    open spec fn next_lower_spec(&self) -> Option<Self> {
        if *self != u32::MIN {
            Some((*self - 1) as u32)
        } else {
            None
        }
    }

    fn next_lower(&self) -> (r: Option<Self>) {
        if *self != u32::MIN {
            Some(*self - 1)
        } else {
            None
        }
    }
}

impl NextUpper for u32 {
    open spec fn next_upper_spec(&self) -> Option<Self> {
        if *self != u32::MAX {
            Some((*self + 1) as u32)
        } else {
            None
        }
    }

    fn next_upper(&self) -> (r: Option<Self>) {
        if *self != u32::MAX {
            Some(*self + 1)
        } else {
            None
        }
    }
}

/// `u64` steps by one between its least and greatest values.
impl Finite for u64 {
    fn pred(&self) -> (r: Option<Self>) {
        if *self != u64::MIN {
            Some(*self - 1)
        } else {
            None
        }
    }

    fn succ(&self) -> (r: Option<Self>) {
        if *self != u64::MAX {
            Some(*self + 1)
        } else {
            None
        }
    }

    fn minimum() -> (r: Self) {
        u64::MIN
    }

    fn maximum() -> (r: Self) {
        u64::MAX
    }

    proof fn lemma_finite(x: Self) {
        assert(is_least(u64::MIN));
        assert(is_greatest(u64::MAX));
        if x != u64::MAX {
            assert(immediately_below(x, (x + 1) as u64));
        }
        if x != u64::MIN {
            assert(immediately_below((x - 1) as u64, x));
        }
    }
}

impl NextLower for u64 {
    open spec fn next_lower_spec(&self) -> Option<Self> {
        if *self != u64::MIN {
            Some((*self - 1) as u64)
        } else {
            None
        }
    }

    fn next_lower(&self) -> (r: Option<Self>) {
        if *self != u64::MIN {
            Some(*self - 1)
        } else {
            None
        }
    }
}

impl NextUpper for u64 {
    open spec fn next_upper_spec(&self) -> Option<Self> {
        if *self != u64::MAX {
            Some((*self + 1) as u64)
        } else {
            None
        }
    }

    fn next_upper(&self) -> (r: Option<Self>) {
        if *self != u64::MAX {
            Some(*self + 1)
        } else {
            None
        }
    }
}

/// `u128` steps by one between its least and greatest values.
impl Finite for u128 {
    fn pred(&self) -> (r: Option<Self>) {
        if *self != u128::MIN {
            Some(*self - 1)
        } else {
            None
        }
    }

    fn succ(&self) -> (r: Option<Self>) {
        if *self != u128::MAX {
            Some(*self + 1)
        } else {
            None
        }
    }

    fn minimum() -> (r: Self) {
        u128::MIN
    }

    fn maximum() -> (r: Self) {
        u128::MAX
    }

    proof fn lemma_finite(x: Self) {
        assert(is_least(u128::MIN));
        assert(is_greatest(u128::MAX));
        if x != u128::MAX {
            assert(immediately_below(x, (x + 1) as u128));
        }
        if x != u128::MIN {
            assert(immediately_below((x - 1) as u128, x));
        }
    }
}

impl NextLower for u128 {
    open spec fn next_lower_spec(&self) -> Option<Self> {
        if *self != u128::MIN {
            Some((*self - 1) as u128)
        } else {
            None
        }
    }

    fn next_lower(&self) -> (r: Option<Self>) {
        if *self != u128::MIN {
            Some(*self - 1)
        } else {
            None
        }
    }
}

impl NextUpper for u128 {
    open spec fn next_upper_spec(&self) -> Option<Self> {
        if *self != u128::MAX {
            Some((*self + 1) as u128)
        } else {
            None
        }
    }

    fn next_upper(&self) -> (r: Option<Self>) {
        if *self != u128::MAX {
            Some(*self + 1)
        } else {
            None
        }
    }
}

/// `usize` steps by one between its least and greatest values.
impl Finite for usize {
    fn pred(&self) -> (r: Option<Self>) {
        if *self != usize::MIN {
            Some(*self - 1)
        } else {
            None
        }
    }

    fn succ(&self) -> (r: Option<Self>) {
        if *self != usize::MAX {
            Some(*self + 1)
        } else {
            None
        }
    }

    fn minimum() -> (r: Self) {
        usize::MIN
    }

    fn maximum() -> (r: Self) {
        usize::MAX
    }

    proof fn lemma_finite(x: Self) {
        assert(is_least(usize::MIN));
        assert(is_greatest(usize::MAX));
        if x != usize::MAX {
            assert(immediately_below(x, (x + 1) as usize));
        }
        if x != usize::MIN {
            assert(immediately_below((x - 1) as usize, x));
        }
    }
}

impl NextLower for usize {
    open spec fn next_lower_spec(&self) -> Option<Self> {
        if *self != usize::MIN {
            Some((*self - 1) as usize)
        } else {
            None
        }
    }

    fn next_lower(&self) -> (r: Option<Self>) {
        if *self != usize::MIN {
            Some(*self - 1)
        } else {
            None
        }
    }
}

impl NextUpper for usize {
    open spec fn next_upper_spec(&self) -> Option<Self> {
        if *self != usize::MAX {
            Some((*self + 1) as usize)
        } else {
            None
        }
    }

    fn next_upper(&self) -> (r: Option<Self>) {
        if *self != usize::MAX {
            Some(*self + 1)
        } else {
            None
        }
    }
}

} // verus!
