use intervals::{Bound, NextLower, NextUpper, RawInterval, Selection};

#[derive(PartialEq, PartialOrd, Eq, Ord, Clone, Copy, Debug)]
struct Dense(i64);

impl NextLower for Dense {
    fn next_lower(&self) -> Option<Self> {
        None
    }
}

impl NextUpper for Dense {
    fn next_upper(&self) -> Option<Self> {
        None
    }
}

fn sel(ivs: Vec<RawInterval<i32>>) -> Selection<i32> {
    Selection::from_intervals(ivs)
}

fn points(s: &Selection<i32>) -> Vec<i32> {
    (-40..=40).filter(|p| s.contains(p)).collect()
}

#[test]
fn settled_on_insertion() {
    let s = sel(vec![RawInterval::open(5, 6)]);
    assert_eq!(s.iter(), vec![]);
    assert_eq!(s.lower_bound(), None);
    let t = sel(vec![RawInterval::closed(0, 10)]).minus(&sel(vec![RawInterval::Point(5)]));
    assert_eq!(t.iter(), vec![RawInterval::Closed(0, 4), RawInterval::Closed(6, 10)]);
    let e: Selection<i32> = Selection::empty();
    assert_eq!(t.union(&e).iter(), e.union(&t).iter());
}

#[test]
fn empty_selection() {
    let s: Selection<i32> = Selection::empty();
    assert_eq!(s.iter(), vec![]);
    assert!(!s.contains(&0));
    assert_eq!(s.lower_bound(), None);
    assert_eq!(s.infimum(), None);
    assert_eq!(s.enclosing_interval(), RawInterval::Empty);
    assert!(s.is_bounded());
    assert!(!s.is_full());
}

#[test]
fn disjoint_insertion_out_of_order() {
    let mut s: Selection<Dense> = Selection::empty();
    s.union_interval(RawInterval::open(Dense(20), Dense(25)));
    s.union_interval(RawInterval::open(Dense(0), Dense(15)));
    s.union_interval(RawInterval::open(Dense(30), Dense(35)));
    assert_eq!(
        s.iter(),
        vec![
            RawInterval::Open(Dense(0), Dense(15)),
            RawInterval::Open(Dense(20), Dense(25)),
            RawInterval::Open(Dense(30), Dense(35)),
        ]
    );
}

#[test]
fn overlapping_inclusive_join() {
    let s = sel(vec![RawInterval::open(0, 15), RawInterval::open(15, 25), RawInterval::closed(0, 25)]);
    assert_eq!(s.iter(), vec![RawInterval::Closed(0, 25)]);
}

#[test]
fn point_fills_gap() {
    let s = sel(vec![RawInterval::open(0, 15), RawInterval::open(15, 25), RawInterval::Point(15)]);
    assert_eq!(s.iter(), vec![RawInterval::Closed(1, 24)]);
}

#[test]
fn unbounded_absorbs() {
    let s = sel(vec![RawInterval::From(10), RawInterval::open(15, 30)]);
    assert_eq!(s.iter(), vec![RawInterval::From(10)]);
    assert!(!s.is_bounded());
    assert_eq!(s.upper_bound(), Some(Bound::Infinite));
    assert_eq!(s.supremum(), None);
    assert_eq!(s.infimum(), Some(10));
}

#[test]
fn adjacent_unit_points_join_over_integers() {
    let mut s: Selection<i32> = Selection::empty();
    for p in 10..15 {
        s.union_interval(RawInterval::Point(p));
    }
    assert_eq!(s.iter(), vec![RawInterval::Closed(10, 14)]);
    let mut d: Selection<Dense> = Selection::empty();
    for p in 10..15 {
        d.union_interval(RawInterval::Point(Dense(p)));
    }
    assert_eq!(d.iter().len(), 5);
}

#[test]
fn widening_joins_neighbours() {
    let s = sel(vec![RawInterval::closed(0, 4), RawInterval::closed(5, 9)]);
    assert_eq!(s.iter(), vec![RawInterval::Closed(0, 9)]);
    let t = sel(vec![RawInterval::closed(5, 9), RawInterval::closed(0, 4)]);
    assert_eq!(t.iter(), vec![RawInterval::Closed(0, 9)]);
    let u = sel(vec![RawInterval::closed(0, 4), RawInterval::closed(6, 9)]);
    assert_eq!(u.iter(), vec![RawInterval::Closed(0, 4), RawInterval::Closed(6, 9)]);
}

#[test]
fn contains_inside_and_at_ends() {
    let s = sel(vec![RawInterval::closed(0, 10), RawInterval::open(20, 30), RawInterval::Point(40)]);
    assert!(s.contains(&0));
    assert!(s.contains(&5));
    assert!(s.contains(&10));
    assert!(!s.contains(&11));
    assert!(!s.contains(&20));
    assert!(s.contains(&25));
    assert!(!s.contains(&30));
    assert!(s.contains(&40));
    assert!(!s.contains(&-1));
}

#[test]
fn iteration_matches_membership() {
    let s = sel(vec![RawInterval::closed(-5, -2), RawInterval::open(3, 9), RawInterval::Point(12), RawInterval::From(30)]);
    let ivs = s.iter();
    for p in -40..=40 {
        assert_eq!(s.contains(&p), ivs.iter().any(|iv| iv.contains(&p)));
    }
    for i in 0..ivs.len() {
        for j in (i + 1)..ivs.len() {
            assert!(!ivs[i].intersects(&ivs[j]));
            assert!(!ivs[i].adjacent(&ivs[j]));
        }
    }
}

#[test]
fn complement_flips() {
    let s = sel(vec![RawInterval::closed(0, 10)]);
    let c = s.complement();
    assert_eq!(c.iter(), vec![RawInterval::To(-1), RawInterval::From(11)]);
    assert_eq!(c.complement().iter(), s.iter());
    let e: Selection<i32> = Selection::empty();
    assert!(e.complement().is_full());
    assert_eq!(e.complement().iter(), vec![RawInterval::Full]);
    assert_eq!(e.complement().complement().iter(), vec![]);
}

#[test]
fn intersect_sweeps_all_overlaps() {
    let a = sel(vec![RawInterval::closed(0, 10), RawInterval::closed(20, 30)]);
    let b = sel(vec![RawInterval::closed(5, 25)]);
    assert_eq!(a.intersect(&b).iter(), vec![RawInterval::Closed(5, 10), RawInterval::Closed(20, 25)]);
    let c = sel(vec![RawInterval::closed(-5, -1), RawInterval::closed(2, 3), RawInterval::closed(8, 21)]);
    assert_eq!(
        a.intersect(&c).iter(),
        vec![RawInterval::Closed(2, 3), RawInterval::Closed(8, 10), RawInterval::Closed(20, 21)]
    );
}

#[test]
fn union_and_minus() {
    let a = sel(vec![RawInterval::closed(0, 10)]);
    let b = sel(vec![RawInterval::open(5, 15), RawInterval::Point(20)]);
    assert_eq!(a.union(&b).iter(), vec![RawInterval::Closed(0, 14), RawInterval::Point(20)]);
    assert_eq!(a.minus(&b).iter(), vec![RawInterval::Closed(0, 5)]);
    assert_eq!(b.minus(&a).iter(), vec![RawInterval::Closed(11, 14), RawInterval::Point(20)]);
}

#[test]
fn closure_selects_tine_points() {
    let s = Selection::from_intervals(vec![RawInterval::open(Dense(0), Dense(5)), RawInterval::open(Dense(5), Dense(9))]);
    assert_eq!(s.iter(), vec![RawInterval::Open(Dense(0), Dense(5)), RawInterval::Open(Dense(5), Dense(9))]);
    assert_eq!(s.closure().iter(), vec![RawInterval::Closed(Dense(0), Dense(9))]);
    let u = Selection::from_intervals(vec![RawInterval::UpTo(Dense(3))]);
    assert_eq!(u.closure().iter(), vec![RawInterval::To(Dense(3))]);
    let t = sel(vec![RawInterval::open(0, 5), RawInterval::open(5, 9)]);
    assert_eq!(t.iter(), vec![RawInterval::Closed(1, 4), RawInterval::Closed(6, 8)]);
    assert_eq!(t.closure().iter(), t.iter());
}

#[test]
fn intersect_interval_in_place() {
    let mut s = sel(vec![RawInterval::closed(0, 10), RawInterval::closed(20, 30)]);
    s.intersect_interval(&RawInterval::open(5, 25));
    assert_eq!(s.iter(), vec![RawInterval::Closed(6, 10), RawInterval::Closed(20, 24)]);
}

#[test]
fn enclosing_interval_spans() {
    let s = sel(vec![RawInterval::open(0, 2), RawInterval::closed(5, 9)]);
    assert_eq!(s.enclosing_interval(), RawInterval::Closed(1, 9));
    assert_eq!(s.lower_bound(), Some(Bound::Include(1)));
    assert_eq!(s.upper_bound(), Some(Bound::Include(9)));
    assert_eq!(s.infimum(), Some(1));
    assert_eq!(s.supremum(), Some(9));
    assert!(s.is_bounded());
}

#[test]
fn algebra_on_values() {
    let a = sel(vec![RawInterval::closed(-10, 0), RawInterval::open(5, 12)]);
    let b = sel(vec![RawInterval::closed(-3, 7), RawInterval::Point(20)]);
    let c = sel(vec![RawInterval::From(10)]);
    assert_eq!(points(&a.union(&b)), points(&b.union(&a)));
    assert_eq!(points(&a.intersect(&b)), points(&b.intersect(&a)));
    assert_eq!(points(&a.union(&b).union(&c)), points(&a.union(&b.union(&c))));
    assert_eq!(points(&a.intersect(&b).intersect(&c)), points(&a.intersect(&b.intersect(&c))));
    assert_eq!(points(&a.union(&b).complement()), points(&a.complement().intersect(&b.complement())));
    assert_eq!(points(&a.intersect(&b).complement()), points(&a.complement().union(&b.complement())));
    assert_eq!(points(&a.complement().complement()), points(&a));
    assert_eq!(points(&a.minus(&b)), points(&a.intersect(&b.complement())));
    let e: Selection<i32> = Selection::empty();
    let f = e.complement();
    assert_eq!(points(&e.union(&a)), points(&a));
    assert_eq!(points(&e.intersect(&a)), Vec::<i32>::new());
    assert!(f.union(&a).is_full());
    assert_eq!(f.intersect(&a).iter(), a.iter());
}

#[test]
fn insertion_order_does_not_matter() {
    let ivs = vec![RawInterval::open(0, 15), RawInterval::Point(15), RawInterval::open(15, 25), RawInterval::closed(30, 31)];
    let forward = sel(ivs.clone());
    let mut reversed = ivs.clone();
    reversed.reverse();
    let backward = sel(reversed);
    assert_eq!(forward.iter(), backward.iter());
    assert_eq!(forward.iter(), vec![RawInterval::Closed(1, 24), RawInterval::Closed(30, 31)]);
}

#[test]
fn contains_interval_checks_cover() {
    let s = sel(vec![RawInterval::closed(0, 10), RawInterval::open(20, 30)]);
    assert!(s.contains_interval(&RawInterval::closed(2, 8)));
    assert!(s.contains_interval(&RawInterval::closed(0, 10)));
    assert!(!s.contains_interval(&RawInterval::closed(5, 15)));
    assert!(!s.contains_interval(&RawInterval::closed(20, 25)));
    assert!(s.contains_interval(&RawInterval::open(20, 30)));
    assert!(s.contains_interval(&RawInterval::Empty));
}

#[test]
fn dense_results_share_tines() {
    let d = |a: i64, b: i64| RawInterval::open(Dense(a), Dense(b));
    let a = Selection::from_intervals(vec![d(0, 10), RawInterval::Point(Dense(12))]);
    let b = Selection::from_intervals(vec![d(5, 15), RawInterval::closed(Dense(20), Dense(30))]);
    let c = Selection::from_intervals(vec![RawInterval::From(Dense(8))]);
    assert_eq!(a.union(&b).iter(), b.union(&a).iter());
    assert_eq!(a.intersect(&b).iter(), b.intersect(&a).iter());
    assert_eq!(a.union(&b).union(&c).iter(), a.union(&b.union(&c)).iter());
    assert_eq!(a.union(&b).complement().iter(), a.complement().intersect(&b.complement()).iter());
    assert_eq!(a.complement().complement().iter(), a.iter());
    assert_eq!(a.minus(&b).iter(), a.intersect(&b.complement()).iter());
    let e: Selection<Dense> = Selection::empty();
    assert_eq!(e.union(&a).iter(), a.iter());
    assert_eq!(e.complement().intersect(&a).iter(), a.iter());
}
