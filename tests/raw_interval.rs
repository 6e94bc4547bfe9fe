use intervals::{Bound, RawInterval};

#[test]
fn new_coinciding_bounds() {
    assert_eq!(RawInterval::new(Bound::Include(3), Bound::Include(3)), RawInterval::Point(3));
    assert_eq!(RawInterval::new(Bound::Include(3), Bound::Exclude(3)), RawInterval::Empty);
    assert_eq!(RawInterval::new(Bound::Exclude(3), Bound::Include(3)), RawInterval::Empty);
    assert_eq!(RawInterval::new(Bound::Exclude(3), Bound::Exclude(3)), RawInterval::Empty);
}

#[test]
fn new_each_shape() {
    assert_eq!(RawInterval::new(Bound::Include(1), Bound::Include(4)), RawInterval::Closed(1, 4));
    assert_eq!(RawInterval::new(Bound::Include(1), Bound::Exclude(4)), RawInterval::RightOpen(1, 4));
    assert_eq!(RawInterval::new(Bound::Exclude(1), Bound::Include(4)), RawInterval::LeftOpen(1, 4));
    assert_eq!(RawInterval::new(Bound::Exclude(1), Bound::Exclude(4)), RawInterval::Open(1, 4));
    assert_eq!(RawInterval::new(Bound::Include(1), Bound::Infinite), RawInterval::From(1));
    assert_eq!(RawInterval::new(Bound::Exclude(1), Bound::Infinite), RawInterval::UpFrom(1));
    assert_eq!(RawInterval::new(Bound::Infinite, Bound::Include(4)), RawInterval::To(4));
    assert_eq!(RawInterval::new(Bound::Infinite, Bound::Exclude(4)), RawInterval::UpTo(4));
    assert_eq!(RawInterval::<i32>::new(Bound::Infinite, Bound::Infinite), RawInterval::Full);
    assert_eq!(RawInterval::new(Bound::Include(4), Bound::Include(1)), RawInterval::Empty);
}

#[test]
fn constructors_collapse_and_reject() {
    assert_eq!(RawInterval::closed(2, 2), RawInterval::Point(2));
    assert_eq!(RawInterval::open(2, 2), RawInterval::Empty);
    assert_eq!(RawInterval::left_open(2, 2), RawInterval::Empty);
    assert_eq!(RawInterval::right_open(2, 2), RawInterval::Empty);
    assert_eq!(RawInterval::closed(3, 2), RawInterval::Empty);
    assert_eq!(RawInterval::open(3, 2), RawInterval::Empty);
    assert_eq!(RawInterval::left_open(3, 2), RawInterval::Empty);
    assert_eq!(RawInterval::right_open(3, 2), RawInterval::Empty);
    assert_eq!(RawInterval::open(1, 2), RawInterval::Open(1, 2));
}

#[test]
fn contains_each_shape() {
    assert!(!RawInterval::<i32>::Empty.contains(&0));
    assert!(RawInterval::Point(5).contains(&5));
    assert!(!RawInterval::Point(5).contains(&6));
    assert!(!RawInterval::Open(1, 4).contains(&1));
    assert!(RawInterval::Open(1, 4).contains(&2));
    assert!(!RawInterval::Open(1, 4).contains(&4));
    assert!(RawInterval::LeftOpen(1, 4).contains(&4));
    assert!(!RawInterval::LeftOpen(1, 4).contains(&1));
    assert!(RawInterval::RightOpen(1, 4).contains(&1));
    assert!(!RawInterval::RightOpen(1, 4).contains(&4));
    assert!(RawInterval::Closed(1, 4).contains(&1));
    assert!(RawInterval::Closed(1, 4).contains(&4));
    assert!(!RawInterval::Closed(1, 4).contains(&5));
    assert!(RawInterval::UpTo(3).contains(&2));
    assert!(!RawInterval::UpTo(3).contains(&3));
    assert!(RawInterval::To(3).contains(&3));
    assert!(!RawInterval::UpFrom(3).contains(&3));
    assert!(RawInterval::From(3).contains(&3));
    assert!(RawInterval::<i32>::Full.contains(&i32::MIN));
}

#[test]
fn bounds_and_extremes() {
    let iv = RawInterval::LeftOpen(1, 4);
    assert_eq!(iv.lower_bound(), Some(Bound::Exclude(1)));
    assert_eq!(iv.upper_bound(), Some(Bound::Include(4)));
    assert_eq!(iv.infimum(), Some(1));
    assert_eq!(iv.supremum(), Some(4));
    assert_eq!(RawInterval::<i32>::Empty.lower_bound(), None);
    assert_eq!(RawInterval::UpTo(3).lower_bound(), Some(Bound::Infinite));
    assert_eq!(RawInterval::UpTo(3).infimum(), None);
    assert_eq!(RawInterval::UpTo(3).supremum(), Some(3));
    assert!(RawInterval::<i32>::Empty.is_empty());
    assert!(RawInterval::<i32>::Full.is_full());
    assert!(!RawInterval::Point(1).is_full());
}

#[test]
fn complement_pieces() {
    assert_eq!(RawInterval::<i32>::Empty.complement(), vec![RawInterval::Full]);
    assert_eq!(RawInterval::Point(3).complement(), vec![RawInterval::UpTo(3), RawInterval::UpFrom(3)]);
    assert_eq!(RawInterval::Open(1, 4).complement(), vec![RawInterval::To(1), RawInterval::From(4)]);
    assert_eq!(RawInterval::LeftOpen(1, 4).complement(), vec![RawInterval::To(1), RawInterval::UpFrom(4)]);
    assert_eq!(RawInterval::RightOpen(1, 4).complement(), vec![RawInterval::UpTo(1), RawInterval::From(4)]);
    assert_eq!(RawInterval::Closed(1, 4).complement(), vec![RawInterval::UpTo(1), RawInterval::UpFrom(4)]);
    assert_eq!(RawInterval::UpTo(2).complement(), vec![RawInterval::From(2)]);
    assert_eq!(RawInterval::From(2).complement(), vec![RawInterval::UpTo(2)]);
    assert_eq!(RawInterval::<i32>::Full.complement(), vec![]);
}

#[test]
fn intersect_takes_inner_bounds() {
    assert_eq!(RawInterval::Closed(0, 10).intersect(&RawInterval::Open(5, 15)), RawInterval::LeftOpen(5, 10));
    assert_eq!(RawInterval::Closed(0, 5).intersect(&RawInterval::Closed(5, 9)), RawInterval::Point(5));
    assert_eq!(RawInterval::RightOpen(0, 5).intersect(&RawInterval::Closed(5, 9)), RawInterval::Empty);
    assert_eq!(RawInterval::Closed(0, 2).intersect(&RawInterval::Closed(5, 9)), RawInterval::Empty);
    assert_eq!(RawInterval::<i32>::Full.intersect(&RawInterval::UpTo(3)), RawInterval::UpTo(3));
    assert!(RawInterval::Closed(0, 5).intersects(&RawInterval::Closed(5, 9)));
    assert!(!RawInterval::RightOpen(0, 5).intersects(&RawInterval::Closed(5, 9)));
}

#[test]
fn adjacency() {
    assert!(RawInterval::RightOpen(0, 5).adjacent(&RawInterval::Closed(5, 9)));
    assert!(RawInterval::Closed(5, 9).adjacent(&RawInterval::RightOpen(0, 5)));
    assert!(!RawInterval::Open(0, 5).adjacent(&RawInterval::Open(5, 9)));
    assert!(!RawInterval::Closed(0, 5).adjacent(&RawInterval::Closed(5, 9)));
}

#[test]
fn union_joins_or_keeps_order() {
    assert_eq!(RawInterval::RightOpen(0, 5).union(&RawInterval::Closed(5, 9)), vec![RawInterval::Closed(0, 9)]);
    assert_eq!(RawInterval::Closed(0, 6).union(&RawInterval::Open(3, 9)), vec![RawInterval::RightOpen(0, 9)]);
    assert_eq!(
        RawInterval::Open(5, 6).union(&RawInterval::Open(0, 1)),
        vec![RawInterval::Open(5, 6), RawInterval::Open(0, 1)]
    );
    assert_eq!(RawInterval::Open(0, 5).union(&RawInterval::Open(5, 9)).len(), 2);
    assert_eq!(RawInterval::Empty.union(&RawInterval::Point(2)), vec![RawInterval::Point(2)]);
    assert_eq!(RawInterval::<i32>::Empty.union(&RawInterval::Empty), vec![]);
}

#[test]
fn minus_cuts_out() {
    assert_eq!(
        RawInterval::Closed(0, 10).minus(&RawInterval::Open(3, 5)),
        vec![RawInterval::Closed(0, 3), RawInterval::Closed(5, 10)]
    );
    assert_eq!(RawInterval::Closed(0, 10).minus(&RawInterval::UpTo(4)), vec![RawInterval::Closed(4, 10)]);
    assert_eq!(RawInterval::Closed(0, 10).minus(&RawInterval::Full), vec![]);
    assert_eq!(RawInterval::Closed(0, 10).minus(&RawInterval::Empty), vec![RawInterval::Closed(0, 10)]);
}

#[test]
fn enclose_spans_both() {
    assert_eq!(RawInterval::Open(0, 1).enclose(&RawInterval::Closed(5, 6)), RawInterval::LeftOpen(0, 6));
    assert_eq!(RawInterval::Closed(5, 6).enclose(&RawInterval::Open(0, 1)), RawInterval::LeftOpen(0, 6));
    assert_eq!(RawInterval::Point(2).enclose(&RawInterval::Empty), RawInterval::Point(2));
    assert_eq!(RawInterval::UpTo(2).enclose(&RawInterval::Point(7)), RawInterval::To(7));
    assert_eq!(RawInterval::RightOpen(0, 5).enclose(&RawInterval::Closed(0, 3)), RawInterval::RightOpen(0, 5));
}

#[test]
fn enclose_is_least() {
    let a = RawInterval::Open(0, 2);
    let b = RawInterval::Closed(5, 6);
    let e = a.enclose(&b);
    for p in -3..10 {
        if a.contains(&p) || b.contains(&p) {
            assert!(e.contains(&p));
        }
    }
    assert!(!e.contains(&0));
    assert!(e.contains(&6));
    assert!(!e.contains(&7));
}

#[test]
fn closure_includes_endpoints() {
    assert_eq!(RawInterval::Open(1, 3).closure(), RawInterval::Closed(1, 3));
    assert_eq!(RawInterval::LeftOpen(1, 3).closure(), RawInterval::Closed(1, 3));
    assert_eq!(RawInterval::RightOpen(1, 3).closure(), RawInterval::Closed(1, 3));
    assert_eq!(RawInterval::UpTo(3).closure(), RawInterval::To(3));
    assert_eq!(RawInterval::UpFrom(3).closure(), RawInterval::From(3));
    assert_eq!(RawInterval::Point(3).closure(), RawInterval::Point(3));
}

#[test]
fn bulk_operations() {
    let ivs = vec![RawInterval::Closed(0, 10), RawInterval::Closed(5, 15), RawInterval::Open(7, 20)];
    assert_eq!(RawInterval::intersect_all(ivs.clone()), RawInterval::LeftOpen(7, 10));
    assert_eq!(RawInterval::enclose_all(ivs), RawInterval::Full);
    assert_eq!(RawInterval::<i32>::intersect_all(vec![]), RawInterval::Full);
    assert_eq!(
        RawInterval::union_all(vec![
            RawInterval::Open(0, 2),
            RawInterval::Empty,
            RawInterval::Open(10, 11),
            RawInterval::Open(1, 3),
        ]),
        vec![RawInterval::Open(0, 3), RawInterval::Open(10, 11)]
    );
    assert_eq!(
        RawInterval::union_all(vec![RawInterval::Open(0, 2), RawInterval::Full, RawInterval::Point(7)]),
        vec![RawInterval::Full]
    );
    assert_eq!(RawInterval::<i32>::union_all(vec![]), vec![]);
}

#[test]
fn bound_combinators() {
    let a = Bound::Include(3);
    let b = Bound::Exclude(3);
    assert_eq!(a.least_union(&b), Bound::Include(3));
    assert_eq!(a.greatest_union(&b), Bound::Include(3));
    assert_eq!(a.greatest_intersect(&b), Bound::Exclude(3));
    assert_eq!(a.least_intersect(&b), Bound::Exclude(3));
    assert_eq!(Bound::Include(1).least_union(&Bound::Include(4)), Bound::Include(1));
    assert_eq!(Bound::Include(1).greatest_union(&Bound::Include(4)), Bound::Include(4));
    assert_eq!(Bound::Include(1).least_union(&Bound::Infinite), Bound::Infinite);
    assert_eq!(Bound::Include(1).greatest_intersect(&Bound::Infinite), Bound::Include(1));
    assert!(a.union_adjacent(&b));
    assert!(!a.union_adjacent(&a));
    assert!(!Bound::Include(1).union_adjacent(&Bound::Exclude(2)));
    assert_eq!(*Bound::Exclude(7).as_ref(), 7);
    assert!(a.is_inclusive() && !a.is_exclusive());
}
