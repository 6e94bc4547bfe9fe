use intervals::{Finite, NextLower, NextUpper, Normalize, RawInterval};

#[test]
fn normalize_integer_shapes() {
    assert_eq!(RawInterval::Open(0, 15).normalized(), RawInterval::Closed(1, 14));
    assert_eq!(RawInterval::LeftOpen(0, 15).normalized(), RawInterval::Closed(1, 15));
    assert_eq!(RawInterval::RightOpen(0, 15).normalized(), RawInterval::Closed(0, 14));
    assert_eq!(RawInterval::Closed(1, 14).normalized(), RawInterval::Closed(1, 14));
    assert_eq!(RawInterval::Open(0, 2).normalized(), RawInterval::Point(1));
    assert_eq!(RawInterval::Open(0, 1).normalized(), RawInterval::Empty);
    assert_eq!(RawInterval::Point(4).normalized(), RawInterval::Point(4));
    assert_eq!(RawInterval::UpTo(5i8).normalized(), RawInterval::Closed(i8::MIN, 4));
    assert_eq!(RawInterval::UpFrom(5i8).normalized(), RawInterval::Closed(6, i8::MAX));
    assert_eq!(RawInterval::To(5u8).normalized(), RawInterval::Closed(0, 5));
    assert_eq!(RawInterval::From(5u8).normalized(), RawInterval::Closed(5, u8::MAX));
    assert_eq!(RawInterval::<u16>::Full.normalized(), RawInterval::Closed(0, u16::MAX));
    assert_eq!(RawInterval::<i32>::Empty.normalized(), RawInterval::Empty);
}

#[test]
fn normalize_out_of_range_is_empty() {
    assert_eq!(RawInterval::Open(i32::MAX - 1, i32::MAX).normalized(), RawInterval::Empty);
    assert_eq!(RawInterval::UpTo(u8::MIN).normalized(), RawInterval::Empty);
    assert_eq!(RawInterval::UpFrom(u8::MAX).normalized(), RawInterval::Empty);
    assert_eq!(RawInterval::LeftOpen(u8::MAX - 1, u8::MAX).normalized(), RawInterval::Point(u8::MAX));
}

#[test]
fn normalize_twice_is_once() {
    let shapes = vec![
        RawInterval::Open(-3i16, 9),
        RawInterval::LeftOpen(-3, 9),
        RawInterval::RightOpen(-3, 9),
        RawInterval::UpTo(0),
        RawInterval::UpFrom(0),
        RawInterval::To(0),
        RawInterval::From(0),
        RawInterval::Full,
        RawInterval::Point(2),
        RawInterval::Empty,
    ];
    for iv in shapes {
        let once = iv.normalized();
        assert_eq!(once.normalized(), once);
    }
}

#[test]
fn normalize_keeps_points() {
    let shapes = vec![
        RawInterval::Open(-3i8, 9),
        RawInterval::LeftOpen(-3, 9),
        RawInterval::RightOpen(-3, 9),
        RawInterval::UpTo(-100),
        RawInterval::UpFrom(100),
        RawInterval::To(-120),
        RawInterval::From(120),
        RawInterval::Full,
    ];
    for iv in shapes {
        let n = iv.normalized();
        let d = iv.denormalized();
        for p in i8::MIN..=i8::MAX {
            assert_eq!(n.contains(&p), iv.contains(&p));
            assert_eq!(d.contains(&p), iv.contains(&p));
        }
    }
}

#[test]
fn denormalize_integer_shapes() {
    assert_eq!(RawInterval::Point(5).denormalized(), RawInterval::Open(4, 6));
    assert_eq!(RawInterval::Closed(1, 14).denormalized(), RawInterval::Open(0, 15));
    assert_eq!(RawInterval::Closed(u8::MIN, 3).denormalized(), RawInterval::UpTo(4));
    assert_eq!(RawInterval::Closed(3, u8::MAX).denormalized(), RawInterval::UpFrom(2));
    assert_eq!(RawInterval::Closed(u8::MIN, u8::MAX).denormalized(), RawInterval::Full);
    assert_eq!(RawInterval::LeftOpen(1, 4).denormalized(), RawInterval::Open(1, 5));
    assert_eq!(RawInterval::RightOpen(1, 4).denormalized(), RawInterval::Open(0, 4));
    assert_eq!(RawInterval::To(4).denormalized(), RawInterval::UpTo(5));
    assert_eq!(RawInterval::To(u8::MAX).denormalized(), RawInterval::Full);
    assert_eq!(RawInterval::From(u8::MIN).denormalized(), RawInterval::Full);
}

#[test]
fn normalize_in_place() {
    let mut iv = RawInterval::Open(0i64, 10);
    iv.normalize();
    assert_eq!(iv, RawInterval::Closed(1, 9));
    iv.denormalize();
    assert_eq!(iv, RawInterval::Open(0, 10));
}

#[test]
fn integer_steps() {
    assert_eq!(5i32.pred(), Some(4));
    assert_eq!(i32::MIN.pred(), None);
    assert_eq!(u64::MAX.succ(), None);
    assert_eq!(7usize.succ(), Some(8));
    assert_eq!(<u8 as Finite>::minimum(), 0);
    assert_eq!(<i128 as Finite>::maximum(), i128::MAX);
    assert_eq!(3i16.next_lower(), Some(2));
    assert_eq!(3i16.next_upper(), Some(4));
    assert_eq!(isize::MAX.next_upper(), None);
}
