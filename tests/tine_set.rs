use intervals::{Bound, Interval, NextLower, NextUpper, RawInterval, TineSet};

#[derive(PartialEq, PartialOrd, Eq, Ord, Clone, Copy, Debug)]
struct Opaque(i32);

impl NextLower for Opaque {
    fn next_lower(&self) -> Option<Self> {
        None
    }
}

impl NextUpper for Opaque {
    fn next_upper(&self) -> Option<Self> {
        None
    }
}

#[test]
fn tine_set_insert_disjoint() {
    let mut dm: TineSet<Opaque> = TineSet::new();

    let a = RawInterval::open(Opaque(0), Opaque(15));
    let b = RawInterval::open(Opaque(20), Opaque(25));
    let c = RawInterval::open(Opaque(30), Opaque(35));
    dm.union_interval(b);
    dm.union_interval(a);
    dm.union_interval(c);

    let dm_res: Vec<RawInterval<Opaque>> = dm.iter();
    assert_eq!(dm_res, vec![a, b, c]);
}

#[test]
fn tine_set_insert_disjoint_normalized() {
    let mut dm: TineSet<i32> = TineSet::new();

    let a = Interval::open(0, 15).raw();
    let b = Interval::open(20, 25).raw();
    let c = Interval::open(30, 35).raw();
    dm.union_interval(b);
    dm.union_interval(a);
    dm.union_interval(c);

    let dm_res: Vec<RawInterval<i32>> = dm.iter();
    assert_eq!(dm_res, vec![a, b, c]);
}

#[test]
fn tine_set_insert_overlap() {
    let mut dm: TineSet<Opaque> = TineSet::new();

    let a = RawInterval::open(Opaque(0), Opaque(15));
    let b = RawInterval::open(Opaque(20), Opaque(25));
    let c = RawInterval::open(Opaque(14), Opaque(26));
    dm.union_interval(b);
    dm.union_interval(a);
    dm.union_interval(c);

    let dm_res: Vec<RawInterval<Opaque>> = dm.iter();
    assert_eq!(dm_res, vec![RawInterval::open(Opaque(0), Opaque(26))]);
}

#[test]
fn tine_set_insert_overlap_normalized() {
    let mut dm: TineSet<i32> = TineSet::new();

    let a = Interval::open(0, 15).raw();
    let b = Interval::open(20, 25).raw();
    let c = Interval::open(14, 26).raw();
    dm.union_interval(b);
    dm.union_interval(a);
    dm.union_interval(c);

    let dm_res: Vec<RawInterval<i32>> = dm.iter();
    assert_eq!(dm_res, vec![Interval::open(0, 26).raw()]);
}

#[test]
fn tine_set_insert_disjoint_close() {
    let mut dm: TineSet<Opaque> = TineSet::new();

    let a = RawInterval::open(Opaque(0), Opaque(15));
    let b = RawInterval::open(Opaque(15), Opaque(25));
    let c = RawInterval::open(Opaque(25), Opaque(30));
    dm.union_interval(c);
    dm.union_interval(a);
    dm.union_interval(b);

    let dm_res: Vec<RawInterval<Opaque>> = dm.iter();
    assert_eq!(dm_res, vec![a, b, c]);
}

#[test]
fn tine_set_insert_disjoint_close_normalized() {
    let mut dm: TineSet<i32> = TineSet::new();

    let a = Interval::open(0, 15).raw();
    let b = Interval::open(15, 25).raw();
    let c = Interval::open(25, 30).raw();
    dm.union_interval(c);
    dm.union_interval(a);
    dm.union_interval(b);

    let dm_res: Vec<RawInterval<i32>> = dm.iter();
    assert_eq!(dm_res, vec![a, b, c]);
}

#[test]
fn tine_set_insert_overlap_close() {
    let mut dm: TineSet<Opaque> = TineSet::new();

    let a = RawInterval::open(Opaque(0), Opaque(15));
    let b = RawInterval::closed(Opaque(15), Opaque(25));
    let c = RawInterval::open(Opaque(25), Opaque(30));
    dm.union_interval(c);
    dm.union_interval(a);
    dm.union_interval(b);

    let dm_res: Vec<RawInterval<Opaque>> = dm.iter();
    assert_eq!(dm_res, vec![RawInterval::open(Opaque(0), Opaque(30))]);
}

#[test]
fn tine_set_insert_overlap_close_normalized() {
    let mut dm: TineSet<i32> = TineSet::new();

    let a = Interval::open(0, 15).raw();
    let b = Interval::closed(15, 25).raw();
    let c = Interval::open(25, 30).raw();
    dm.union_interval(c);
    dm.union_interval(a);
    dm.union_interval(b);

    let dm_res: Vec<RawInterval<i32>> = dm.iter();
    assert_eq!(dm_res, vec![Interval::open(0, 30).raw()]);
}

#[test]
fn tine_set_insert_disjoint_point() {
    let mut dm: TineSet<Opaque> = TineSet::new();

    let a = RawInterval::open(Opaque(0), Opaque(15));
    let b = RawInterval::open(Opaque(15), Opaque(25));
    let c = RawInterval::Point(Opaque(15));
    dm.union_interval(c);
    dm.union_interval(a);
    dm.union_interval(b);

    let dm_res: Vec<RawInterval<Opaque>> = dm.iter();
    assert_eq!(dm_res, vec![RawInterval::open(Opaque(0), Opaque(25))]);
}

#[test]
fn tine_set_insert_disjoint_point_normalized() {
    let mut dm: TineSet<i32> = TineSet::new();

    let a = Interval::open(0, 15).raw();
    let b = Interval::open(15, 25).raw();
    let c = Interval::point(15).raw();
    dm.union_interval(c);
    dm.union_interval(a);
    dm.union_interval(b);

    let dm_res: Vec<RawInterval<i32>> = dm.iter();
    assert_eq!(dm_res, vec![Interval::open(0, 25).raw()]);
}

#[test]
fn tine_set_insert_overlap_exact() {
    let mut dm: TineSet<Opaque> = TineSet::new();

    let a = RawInterval::open(Opaque(0), Opaque(15));
    let b = RawInterval::open(Opaque(15), Opaque(25));
    let c = RawInterval::open(Opaque(0), Opaque(25));
    dm.union_interval(a);
    dm.union_interval(b);
    dm.union_interval(c);

    let dm_res: Vec<RawInterval<Opaque>> = dm.iter();
    assert_eq!(dm_res, vec![RawInterval::open(Opaque(0), Opaque(25))]);
}

#[test]
fn tine_set_insert_overlap_exact_normalized() {
    let mut dm: TineSet<i32> = TineSet::new();

    let a = Interval::open(0, 15).raw();
    let b = Interval::open(15, 25).raw();
    let c = Interval::open(0, 25).raw();
    dm.union_interval(a);
    dm.union_interval(b);
    dm.union_interval(c);

    let dm_res: Vec<RawInterval<i32>> = dm.iter();
    assert_eq!(dm_res, vec![Interval::open(0, 25).raw()]);
}

#[test]
fn tine_set_insert_overlap_widen() {
    let mut dm: TineSet<Opaque> = TineSet::new();

    let a = RawInterval::open(Opaque(0), Opaque(15));
    let b = RawInterval::open(Opaque(15), Opaque(25));
    let c = RawInterval::closed(Opaque(0), Opaque(25));
    dm.union_interval(a);
    dm.union_interval(b);
    dm.union_interval(c);

    let dm_res: Vec<RawInterval<Opaque>> = dm.iter();
    assert_eq!(dm_res, vec![RawInterval::closed(Opaque(0), Opaque(25))]);
}

#[test]
fn tine_set_insert_overlap_widen_normalized() {
    let mut dm: TineSet<i32> = TineSet::new();

    let a = Interval::open(0, 15).raw();
    let b = Interval::open(15, 25).raw();
    let c = Interval::closed(0, 25).raw();
    dm.union_interval(a);
    dm.union_interval(b);
    dm.union_interval(c);

    let dm_res: Vec<RawInterval<i32>> = dm.iter();
    assert_eq!(dm_res, vec![Interval::closed(0, 25).raw()]);
}

#[test]
fn tine_set_insert_overlap_point() {
    let mut dm: TineSet<Opaque> = TineSet::new();

    let a = RawInterval::open(Opaque(0), Opaque(30));
    let b = RawInterval::Point(Opaque(15));
    dm.union_interval(a);
    dm.union_interval(b);

    let dm_res: Vec<RawInterval<Opaque>> = dm.iter();
    assert_eq!(dm_res, vec![RawInterval::open(Opaque(0), Opaque(30))]);
}

#[test]
fn tine_set_insert_overlap_point_normalized() {
    let mut dm: TineSet<i32> = TineSet::new();

    let a = Interval::open(0, 30).raw();
    let b = Interval::point(15).raw();
    dm.union_interval(a);
    dm.union_interval(b);

    let dm_res: Vec<RawInterval<i32>> = dm.iter();
    assert_eq!(dm_res, vec![Interval::open(0, 30).raw()]);
}

#[test]
fn tine_set_insert_overlap_unbounded() {
    let mut dm: TineSet<Opaque> = TineSet::new();

    let a = RawInterval::From(Opaque(10));
    let b = RawInterval::open(Opaque(15), Opaque(30));
    dm.union_interval(a);
    dm.union_interval(b);

    let dm_res: Vec<RawInterval<Opaque>> = dm.iter();
    assert_eq!(dm_res, vec![RawInterval::From(Opaque(10))]);
}

#[test]
fn tine_set_insert_overlap_unbounded_normalized() {
    let mut dm: TineSet<i32> = TineSet::new();

    let a = Interval::new(Bound::Include(10), Bound::Infinite).raw();
    let b = Interval::open(15, 30).raw();
    dm.union_interval(a);
    dm.union_interval(b);

    let dm_res: Vec<RawInterval<i32>> = dm.iter();
    assert_eq!(dm_res, vec![Interval::new(Bound::Include(10), Bound::Infinite).raw()]);
}

#[test]
fn tine_set_insert_units() {
    let mut dm: TineSet<Opaque> = TineSet::new();

    let a = RawInterval::Point(Opaque(10));
    let b = RawInterval::Point(Opaque(11));
    let c = RawInterval::Point(Opaque(12));
    let d = RawInterval::Point(Opaque(13));
    let e = RawInterval::Point(Opaque(14));
    dm.union_interval(a);
    dm.union_interval(b);
    dm.union_interval(c);
    dm.union_interval(d);
    dm.union_interval(e);

    let dm_res: Vec<RawInterval<Opaque>> = dm.iter();
    assert_eq!(dm_res, vec![
        RawInterval::Point(Opaque(10)),
        RawInterval::Point(Opaque(11)),
        RawInterval::Point(Opaque(12)),
        RawInterval::Point(Opaque(13)),
        RawInterval::Point(Opaque(14)),
    ]);
}

#[test]
fn tine_set_insert_units_normalized() {
    let mut dm: TineSet<i32> = TineSet::new();

    let a = Interval::point(10).raw();
    let b = Interval::point(11).raw();
    let c = Interval::point(12).raw();
    let d = Interval::point(13).raw();
    let e = Interval::point(14).raw();
    dm.union_interval(a);
    dm.union_interval(b);
    dm.union_interval(d);
    dm.union_interval(e);
    dm.union_interval(c);

    let dm_res: Vec<RawInterval<i32>> = dm.iter();
    assert_eq!(dm_res, vec![Interval::closed(10, 14).raw()]);
}
