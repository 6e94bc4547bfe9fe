use intervals::{Bound, Interval, RawInterval};

#[test]
fn normal_form_makes_shapes_equal() {
    assert_eq!(Interval::open(0, 15), Interval::closed(1, 14));
    assert_eq!(Interval::right_open(1, 15), Interval::closed(1, 14));
    assert_eq!(Interval::left_open(0, 14), Interval::closed(1, 14));
    assert_eq!(Interval::open(0, 15).raw(), RawInterval::Closed(1, 14));
    assert_eq!(Interval::open(0, 2).raw(), RawInterval::Point(1));
    assert!(Interval::open(0, 2).is_degenerate());
    assert!(Interval::open(0, 1).is_empty());
    assert!(Interval::open(i32::MAX - 1, i32::MAX).is_empty());
}

#[test]
fn normal_form_of_unbounded() {
    assert_eq!(Interval::<u8>::full().raw(), RawInterval::Closed(0, u8::MAX));
    assert_eq!(Interval::new(Bound::Infinite, Bound::Exclude(5u8)).raw(), RawInterval::Closed(0, 4));
    assert_eq!(Interval::new(Bound::Exclude(5u8), Bound::Infinite).raw(), RawInterval::Closed(6, u8::MAX));
    assert_eq!(Interval::<u8>::empty().raw(), RawInterval::Empty);
    assert_eq!(Interval::point(3u8).raw(), RawInterval::Point(3));
}

#[test]
fn normalized_operations() {
    let a = Interval::closed(0, 10);
    let b = Interval::open(5, 15);
    assert_eq!(a.intersect(&b).raw(), RawInterval::Closed(6, 10));
    assert_eq!(a.enclose(&b).raw(), RawInterval::Closed(0, 14));
    assert_eq!(a.union(&b), vec![Interval::closed(0, 14)]);
    assert_eq!(a.minus(&b), vec![Interval::closed(0, 5)]);
    assert_eq!(
        Interval::closed(3u8, 7).complement(),
        vec![Interval::closed(0, 2), Interval::closed(8, u8::MAX)]
    );
    assert_eq!(b.closure(), b);
    assert!(b.contains(&6));
    assert!(!b.contains(&5));
}
