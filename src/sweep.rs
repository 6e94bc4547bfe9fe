//! Combining two runs of tines point by point, in one ascending sweep.

use crate::order::{compare, lemma_order, ordered};
use crate::tine::{
    above, below, lemma_at, lemma_places, lemma_push_above, lemma_region, linked, marks_change,
    same_place, selects, sorted, tine_lt, tine_ok, tines_wf, Tine,
};
use core::cmp::Ordering;
use vstd::prelude::*;

verus! {

/// How two selections are combined, point by point.
#[derive(Clone, Copy)]
pub enum Combine {
    /// Points of either.
    Union,
    /// Points of both.
    Intersect,
    /// Points of the first that the second lacks.
    Difference,
}

/// The combination of two memberships.
pub open spec fn combine_spec(op: Combine, x: bool, y: bool) -> bool {
    match op {
        Combine::Union => x || y,
        Combine::Intersect => x && y,
        Combine::Difference => x && !y,
    }
}

/// Combines two memberships as `op` says.
fn apply(op: Combine, x: bool, y: bool) -> (r: bool)
    ensures
        r == combine_spec(op, x, y),
{
    match op {
        Combine::Union => x || y,
        Combine::Intersect => x && y,
        Combine::Difference => x && !y,
    }
}

/// Compares the places of two tines.
fn tine_cmp<T: Ord + Copy>(x: &Tine<T>, y: &Tine<T>) -> (r: Ordering)
    requires
        ordered::<T>(),
        tine_ok(*x),
        tine_ok(*y),
    ensures
        (r == Ordering::Less) == tine_lt(*x, *y),
        (r == Ordering::Equal) == same_place(*x, *y),
        (r == Ordering::Greater) == tine_lt(*y, *x),
{
    proof {
        lemma_order::<T>();
    }
    match (&x.point, &y.point) {
        (Some(a), Some(b)) => compare(a, b),
        (None, Some(_)) => if x.lb {
            Ordering::Less
        } else {
            Ordering::Greater
        },
        (Some(_), None) => if y.lb {
            Ordering::Greater
        } else {
            Ordering::Less
        },
        (None, None) => if x.lb == y.lb {
            Ordering::Equal
        } else if x.lb {
            Ordering::Less
        } else {
            Ordering::Greater
        },
    }
}

/// Every point below the next unread tine of each input.
spec fn covered<T: Ord>(a: Seq<Tine<T>>, b: Seq<Tine<T>>, i: int, j: int, p: T) -> bool {
    (i == a.len() || above(a[i], p)) && (j == b.len() || above(b[j], p))
}

/// The shape of what `combine` has written after reading `i` tines of `a`
/// and `j` of `b`.
#[verifier::opaque]
spec fn combine_shape<T: Ord>(
    a: Seq<Tine<T>>,
    b: Seq<Tine<T>>,
    op: Combine,
    i: int,
    j: int,
    ra: bool,
    rb: bool,
    out: Seq<Tine<T>>,
) -> bool {
    &&& ra == (i > 0 && a[i - 1].lb)
    &&& rb == (j > 0 && b[j - 1].lb)
    &&& i > 0 && j < b.len() ==> tine_lt(a[i - 1], b[j])
    &&& j > 0 && i < a.len() ==> tine_lt(b[j - 1], a[i])
    &&& sorted(out)
    &&& forall|k: int| 0 <= k < out.len() ==> tine_ok(#[trigger] out[k])
    &&& forall|k: int| 0 <= k < out.len() ==> marks_change(#[trigger] out[k])
    &&& forall|k: int| 0 <= k < out.len() - 1 ==> #[trigger] linked(out, k)
    &&& out.len() > 0 ==> !out[0].ub
    &&& out.len() > 0 ==> out[out.len() - 1].lb == combine_spec(op, ra, rb)
    &&& out.len() == 0 ==> !combine_spec(op, ra, rb)
    &&& forall|k: int| 0 <= k < out.len() && i < a.len() ==> tine_lt(#[trigger] out[k], a[i])
    &&& forall|k: int| 0 <= k < out.len() && j < b.len() ==> tine_lt(#[trigger] out[k], b[j])
}

/// What `combine` has written is right on every point below the next unread
/// tines.
#[verifier::opaque]
spec fn combine_right<T: Ord>(
    a: Seq<Tine<T>>,
    b: Seq<Tine<T>>,
    op: Combine,
    i: int,
    j: int,
    out: Seq<Tine<T>>,
) -> bool {
    forall|p: T|
        covered(a, b, i, j, p) ==> #[trigger] selects(out, p) == combine_spec(
            op,
            selects(a, p),
            selects(b, p),
        )
}

/// What holds of `combine` after it has read `i` tines of `a` and `j` of `b`.
spec fn combine_inv<T: Ord>(
    a: Seq<Tine<T>>,
    b: Seq<Tine<T>>,
    op: Combine,
    i: int,
    j: int,
    ra: bool,
    rb: bool,
    out: Seq<Tine<T>>,
) -> bool {
    combine_shape(a, b, op, i, j, ra, rb, out) && combine_right(a, b, op, i, j, out)
}

/// Before `combine` reads anything, what it states holds.
proof fn lemma_combine_start<T: Ord>(a: Seq<Tine<T>>, b: Seq<Tine<T>>, op: Combine)
    requires
        ordered::<T>(),
        tines_wf(a),
        tines_wf(b),
    ensures
        combine_inv(a, b, op, 0, 0, false, false, Seq::empty()),
{
    reveal(combine_shape);
    reveal(combine_right);
    assert forall|p: T| covered(a, b, 0, 0, p) implies #[trigger] selects(Seq::<Tine<T>>::empty(), p)
        == combine_spec(op, selects(a, p), selects(b, p)) by {
        lemma_region(a, 0, p);
        lemma_region(b, 0, p);
        lemma_region(Seq::<Tine<T>>::empty(), 0, p);
    }
}

/// When `combine` has read everything, its output is well formed and right
/// everywhere.
proof fn lemma_combine_done<T: Ord>(
    a: Seq<Tine<T>>,
    b: Seq<Tine<T>>,
    op: Combine,
    ra: bool,
    rb: bool,
    out: Seq<Tine<T>>,
)
    requires
        tines_wf(a),
        tines_wf(b),
        combine_inv(a, b, op, a.len() as int, b.len() as int, ra, rb, out),
    ensures
        tines_wf(out),
        forall|p: T| #[trigger] selects(out, p) == combine_spec(op, selects(a, p), selects(b, p)),
{
    reveal(combine_shape);
    reveal(combine_right);
    if a.len() > 0 {
        assert(!a[a.len() - 1].lb);
    }
    if b.len() > 0 {
        assert(!b[b.len() - 1].lb);
    }
    assert forall|p: T| #[trigger] selects(out, p) == combine_spec(op, selects(a, p), selects(b, p)) by {
        assert(covered(a, b, a.len() as int, b.len() as int, p));
    }
}

/// The run that combining `a` and `b` by `op` writes from the state where
/// `i` tines of `a` and `j` of `b` have been read, the regions behind them
/// being `ra` and `rb`: at each place where either has a tine, in ascending
/// order, the tine whose flags combine theirs, kept where it marks a change.
#[verifier::opaque]
pub open spec fn sweep_from<T: Ord>(
    a: Seq<Tine<T>>,
    b: Seq<Tine<T>>,
    op: Combine,
    i: int,
    j: int,
    ra: bool,
    rb: bool,
) -> Seq<Tine<T>>
    decreases a.len() - i + b.len() - j,
{
    if !(0 <= i <= a.len() && 0 <= j <= b.len()) || (i == a.len() && j == b.len()) {
        seq![]
    } else {
        let take_a = j == b.len() || (i < a.len() && !tine_lt(b[j], a[i]));
        let take_b = !take_a || (j < b.len() && !tine_lt(a[i], b[j]));
        let e = if take_a { a[i] } else { b[j] };
        let fa = if take_a { (a[i].ub, a[i].incl, a[i].lb) } else { (ra, ra, ra) };
        let fb = if take_b { (b[j].ub, b[j].incl, b[j].lb) } else { (rb, rb, rb) };
        let t = Tine {
            point: e.point,
            lb: combine_spec(op, fa.2, fb.2),
            ub: combine_spec(op, fa.0, fb.0),
            incl: combine_spec(op, fa.1, fb.1),
        };
        let rest = sweep_from(
            a,
            b,
            op,
            if take_a { i + 1 } else { i },
            if take_b { j + 1 } else { j },
            if take_a { a[i].lb } else { ra },
            if take_b { b[j].lb } else { rb },
        );
        if marks_change(t) {
            seq![t] + rest
        } else {
            rest
        }
    }
}

/// The run that combining `a` and `b` by `op` gives.
pub open spec fn merged_run<T: Ord>(a: Seq<Tine<T>>, b: Seq<Tine<T>>, op: Combine) -> Seq<Tine<T>> {
    sweep_from(a, b, op, 0, 0, false, false)
}

/// One step of `combine` writes what `sweep_from` begins with.
proof fn lemma_sweep_step<T: Ord>(
    a: Seq<Tine<T>>,
    b: Seq<Tine<T>>,
    op: Combine,
    oi: int,
    oj: int,
    ora: bool,
    orb: bool,
    take_a: bool,
    take_b: bool,
    e: Tine<T>,
    t: Tine<T>,
    emit: bool,
)
    requires
        ordered::<T>(),
        0 <= oi <= a.len(),
        0 <= oj <= b.len(),
        oi < a.len() || oj < b.len(),
        take_a || take_b,
        take_a ==> oi < a.len(),
        take_b ==> oj < b.len(),
        !take_a ==> oi == a.len() || tine_lt(b[oj], a[oi]),
        !take_b ==> oj == b.len() || tine_lt(a[oi], b[oj]),
        take_a && take_b ==> same_place(a[oi], b[oj]),
        e == (if take_a { a[oi] } else { b[oj] }),
        t.point == e.point,
        t.ub == combine_spec(op, if take_a { a[oi].ub } else { ora }, if take_b { b[oj].ub } else { orb }),
        t.incl == combine_spec(
            op,
            if take_a { a[oi].incl } else { ora },
            if take_b { b[oj].incl } else { orb },
        ),
        t.lb == combine_spec(op, if take_a { a[oi].lb } else { ora }, if take_b { b[oj].lb } else { orb }),
        emit == marks_change(t),
    ensures
        sweep_from(a, b, op, oi, oj, ora, orb) == (if emit { seq![t] } else { seq![] }) + sweep_from(
            a,
            b,
            op,
            if take_a { oi + 1 } else { oi },
            if take_b { oj + 1 } else { oj },
            if take_a { a[oi].lb } else { ora },
            if take_b { b[oj].lb } else { orb },
        ),
{
    reveal(sweep_from);
    lemma_places::<T>();
    if oi < a.len() && oj < b.len() {
        if tine_lt(a[oi], b[oj]) {
            assert(!tine_lt(b[oj], a[oi]));
        }
        if take_a && take_b {
            assert(!tine_lt(a[oi], b[oj]));
            assert(!tine_lt(b[oj], a[oi]));
        }
    }
    let rest = sweep_from(
        a,
        b,
        op,
        if take_a { oi + 1 } else { oi },
        if take_b { oj + 1 } else { oj },
        if take_a { a[oi].lb } else { ora },
        if take_b { b[oj].lb } else { orb },
    );
    if !emit {
        assert(seq![] + rest =~= rest);
    }
}

/// Intersecting with an empty run writes nothing.
pub proof fn lemma_sweep_empty_intersect<T: Ord>(b: Seq<Tine<T>>, j: int, rb: bool)
    requires
        0 <= j <= b.len(),
    ensures
        sweep_from(Seq::<Tine<T>>::empty(), b, Combine::Intersect, 0, j, false, rb) == Seq::<Tine<T>>::empty(),
    decreases b.len() - j,
{
    reveal(sweep_from);
    if j < b.len() {
        lemma_sweep_empty_intersect(b, j + 1, b[j].lb);
    }
}

/// With both runs read, nothing remains to be swept.
proof fn lemma_sweep_done<T: Ord>(a: Seq<Tine<T>>, b: Seq<Tine<T>>, op: Combine, ra: bool, rb: bool)
    ensures
        sweep_from(a, b, op, a.len() as int, b.len() as int, ra, rb) == Seq::<Tine<T>>::empty(),
{
    reveal(sweep_from);
}

/// After one step of `combine`, what it wrote followed by what remains to
/// be swept is still the whole merged run.
proof fn lemma_sweep_advance<T: Ord>(
    a: Seq<Tine<T>>,
    b: Seq<Tine<T>>,
    op: Combine,
    oi: int,
    oj: int,
    ora: bool,
    orb: bool,
    oout: Seq<Tine<T>>,
    out: Seq<Tine<T>>,
    take_a: bool,
    take_b: bool,
    e: Tine<T>,
    t: Tine<T>,
    emit: bool,
)
    requires
        ordered::<T>(),
        0 <= oi <= a.len(),
        0 <= oj <= b.len(),
        oi < a.len() || oj < b.len(),
        take_a || take_b,
        take_a ==> oi < a.len(),
        take_b ==> oj < b.len(),
        !take_a ==> oi == a.len() || tine_lt(b[oj], a[oi]),
        !take_b ==> oj == b.len() || tine_lt(a[oi], b[oj]),
        take_a && take_b ==> same_place(a[oi], b[oj]),
        e == (if take_a { a[oi] } else { b[oj] }),
        t.point == e.point,
        t.ub == combine_spec(op, if take_a { a[oi].ub } else { ora }, if take_b { b[oj].ub } else { orb }),
        t.incl == combine_spec(
            op,
            if take_a { a[oi].incl } else { ora },
            if take_b { b[oj].incl } else { orb },
        ),
        t.lb == combine_spec(op, if take_a { a[oi].lb } else { ora }, if take_b { b[oj].lb } else { orb }),
        emit == marks_change(t),
        oout + sweep_from(a, b, op, oi, oj, ora, orb) == merged_run(a, b, op),
        out == (if emit { oout.push(t) } else { oout }),
    ensures
        out + sweep_from(
            a,
            b,
            op,
            if take_a { oi + 1 } else { oi },
            if take_b { oj + 1 } else { oj },
            if take_a { a[oi].lb } else { ora },
            if take_b { b[oj].lb } else { orb },
        ) == merged_run(a, b, op),
{
    lemma_sweep_step(a, b, op, oi, oj, ora, orb, take_a, take_b, e, t, emit);
    let rest = sweep_from(
        a,
        b,
        op,
        if take_a { oi + 1 } else { oi },
        if take_b { oj + 1 } else { oj },
        if take_a { a[oi].lb } else { ora },
        if take_b { b[oj].lb } else { orb },
    );
    if emit {
        assert(oout + (seq![t] + rest) =~= oout.push(t) + rest);
    } else {
        assert(oout + (seq![] + rest) =~= oout + rest);
    }
}

/// Merges two runs of tines into the run of the points that `op` keeps,
/// walking both in ascending order.
pub fn combine<T: Ord + Copy>(a: &Vec<Tine<T>>, b: &Vec<Tine<T>>, op: Combine) -> (r: Vec<Tine<T>>)
    requires
        ordered::<T>(),
        tines_wf(a@),
        tines_wf(b@),
    ensures
        r@ == merged_run(a@, b@, op),
        tines_wf(r@),
        forall|p: T| #[trigger] selects(r@, p) == combine_spec(op, selects(a@, p), selects(b@, p)),
{
    let mut out: Vec<Tine<T>> = Vec::new();
    let mut i: usize = 0;
    let mut j: usize = 0;
    let mut ra = false;
    let mut rb = false;
    proof {
        lemma_combine_start(a@, b@, op);
        assert(out@ + merged_run(a@, b@, op) =~= merged_run(a@, b@, op));
    }
    while i < a.len() || j < b.len()
        invariant
            ordered::<T>(),
            tines_wf(a@),
            tines_wf(b@),
            i <= a@.len(),
            j <= b@.len(),
            combine_inv(a@, b@, op, i as int, j as int, ra, rb, out@),
            out@ + sweep_from(a@, b@, op, i as int, j as int, ra, rb) == merged_run(a@, b@, op),
        decreases a@.len() - i + b@.len() - j,
    {
        let ghost oi = i as int;
        let ghost oj = j as int;
        let ghost oout = out@;
        let ghost ora = ra;
        let ghost orb = rb;
        let (take_a, take_b) = if i == a.len() {
            (false, true)
        } else if j == b.len() {
            (true, false)
        } else {
            match tine_cmp(&a[i], &b[j]) {
                Ordering::Less => (true, false),
                Ordering::Greater => (false, true),
                Ordering::Equal => (true, true),
            }
        };
        let e = if take_a {
            a[i]
        } else {
            b[j]
        };
        let (la, xa, ua) = if take_a {
            (a[i].ub, a[i].incl, a[i].lb)
        } else {
            (ra, ra, ra)
        };
        let (lbb, xb, ubb) = if take_b {
            (b[j].ub, b[j].incl, b[j].lb)
        } else {
            (rb, rb, rb)
        };
        let left = apply(op, la, lbb);
        let at = apply(op, xa, xb);
        let right = apply(op, ua, ubb);
        let t = Tine { point: e.point, lb: right, ub: left, incl: at };
        let emit = !(left == at && at == right);
        if emit {
            out.push(t);
        }
        if take_a {
            ra = a[i].lb;
            i = i + 1;
        }
        if take_b {
            rb = b[j].lb;
            j = j + 1;
        }
        proof {
            lemma_combine_advance(a@, b@, op, oi, oj, ora, orb, oout, take_a, take_b, e, t, emit);
            lemma_sweep_advance(a@, b@, op, oi, oj, ora, orb, oout, out@, take_a, take_b, e, t, emit);
        }
    }
    proof {
        lemma_combine_done(a@, b@, op, ra, rb, out@);
        lemma_sweep_done(a@, b@, op, ra, rb);
        assert(out@ + Seq::<Tine<T>>::empty() =~= out@);
    }
    out
}

/// One step of `combine` keeps what it has stated.
proof fn lemma_combine_advance<T: Ord>(
    a: Seq<Tine<T>>,
    b: Seq<Tine<T>>,
    op: Combine,
    oi: int,
    oj: int,
    ora: bool,
    orb: bool,
    oout: Seq<Tine<T>>,
    take_a: bool,
    take_b: bool,
    e: Tine<T>,
    t: Tine<T>,
    emit: bool,
)
    requires
        ordered::<T>(),
        tines_wf(a),
        tines_wf(b),
        0 <= oi <= a.len(),
        0 <= oj <= b.len(),
        oi < a.len() || oj < b.len(),
        take_a || take_b,
        take_a ==> oi < a.len(),
        take_b ==> oj < b.len(),
        !take_a ==> oi == a.len() || tine_lt(b[oj], a[oi]),
        !take_b ==> oj == b.len() || tine_lt(a[oi], b[oj]),
        take_a && take_b ==> same_place(a[oi], b[oj]),
        e == (if take_a { a[oi] } else { b[oj] }),
        t.point == e.point,
        t.ub == combine_spec(op, if take_a { a[oi].ub } else { ora }, if take_b { b[oj].ub } else { orb }),
        t.incl == combine_spec(
            op,
            if take_a { a[oi].incl } else { ora },
            if take_b { b[oj].incl } else { orb },
        ),
        t.lb == combine_spec(op, if take_a { a[oi].lb } else { ora }, if take_b { b[oj].lb } else { orb }),
        emit == marks_change(t),
        combine_inv(a, b, op, oi, oj, ora, orb, oout),
    ensures
        ({
            let i = if take_a { oi + 1 } else { oi };
            let j = if take_b { oj + 1 } else { oj };
            let ra = if take_a { a[oi].lb } else { ora };
            let rb = if take_b { b[oj].lb } else { orb };
            let out = if emit { oout.push(t) } else { oout };
            combine_inv(a, b, op, i, j, ra, rb, out)
        }),
{
    let i = if take_a { oi + 1 } else { oi };
    let j = if take_b { oj + 1 } else { oj };
    let ra = if take_a { a[oi].lb } else { ora };
    let rb = if take_b { b[oj].lb } else { orb };
    let out = if emit { oout.push(t) } else { oout };
    lemma_combine_shape_step(a, b, op, oi, oj, ora, orb, oout, take_a, take_b, e, t, emit, i, j, ra, rb, out);
    lemma_combine_cover(a, b, op, oi, oj, i, j, oout, out, e, t, emit, take_a, take_b, ora, orb);
}

/// The clauses of `combine_shape`.
proof fn lemma_shape_elim<T: Ord>(
    a: Seq<Tine<T>>,
    b: Seq<Tine<T>>,
    op: Combine,
    i: int,
    j: int,
    ra: bool,
    rb: bool,
    out: Seq<Tine<T>>,
)
    requires
        combine_shape(a, b, op, i, j, ra, rb, out),
    ensures
        ra == (i > 0 && a[i - 1].lb),
        rb == (j > 0 && b[j - 1].lb),
        i > 0 && j < b.len() ==> tine_lt(a[i - 1], b[j]),
        j > 0 && i < a.len() ==> tine_lt(b[j - 1], a[i]),
        sorted(out),
        forall|k: int| 0 <= k < out.len() ==> tine_ok(#[trigger] out[k]),
        forall|k: int| 0 <= k < out.len() ==> marks_change(#[trigger] out[k]),
        forall|k: int| 0 <= k < out.len() - 1 ==> #[trigger] linked(out, k),
        out.len() > 0 ==> !out[0].ub,
        out.len() > 0 ==> out[out.len() - 1].lb == combine_spec(op, ra, rb),
        out.len() == 0 ==> !combine_spec(op, ra, rb),
        forall|k: int| 0 <= k < out.len() && i < a.len() ==> tine_lt(#[trigger] out[k], a[i]),
        forall|k: int| 0 <= k < out.len() && j < b.len() ==> tine_lt(#[trigger] out[k], b[j]),
{
    reveal(combine_shape);
}

/// `combine_shape` from its clauses.
proof fn lemma_shape_intro<T: Ord>(
    a: Seq<Tine<T>>,
    b: Seq<Tine<T>>,
    op: Combine,
    i: int,
    j: int,
    ra: bool,
    rb: bool,
    out: Seq<Tine<T>>,
)
    requires
        ra == (i > 0 && a[i - 1].lb),
        rb == (j > 0 && b[j - 1].lb),
        i > 0 && j < b.len() ==> tine_lt(a[i - 1], b[j]),
        j > 0 && i < a.len() ==> tine_lt(b[j - 1], a[i]),
        sorted(out),
        forall|k: int| 0 <= k < out.len() ==> tine_ok(#[trigger] out[k]),
        forall|k: int| 0 <= k < out.len() ==> marks_change(#[trigger] out[k]),
        forall|k: int| 0 <= k < out.len() - 1 ==> #[trigger] linked(out, k),
        out.len() > 0 ==> !out[0].ub,
        out.len() > 0 ==> out[out.len() - 1].lb == combine_spec(op, ra, rb),
        out.len() == 0 ==> !combine_spec(op, ra, rb),
        forall|k: int| 0 <= k < out.len() && i < a.len() ==> tine_lt(#[trigger] out[k], a[i]),
        forall|k: int| 0 <= k < out.len() && j < b.len() ==> tine_lt(#[trigger] out[k], b[j]),
    ensures
        combine_shape(a, b, op, i, j, ra, rb, out),
{
    reveal(combine_shape);
}

/// One step of `combine` keeps the shape of what it writes.
#[verifier::rlimit(80)]
proof fn lemma_combine_shape_step<T: Ord>(
    a: Seq<Tine<T>>,
    b: Seq<Tine<T>>,
    op: Combine,
    oi: int,
    oj: int,
    ora: bool,
    orb: bool,
    oout: Seq<Tine<T>>,
    take_a: bool,
    take_b: bool,
    e: Tine<T>,
    t: Tine<T>,
    emit: bool,
    i: int,
    j: int,
    ra: bool,
    rb: bool,
    out: Seq<Tine<T>>,
)
    requires
        ordered::<T>(),
        tines_wf(a),
        tines_wf(b),
        0 <= oi <= a.len(),
        0 <= oj <= b.len(),
        oi < a.len() || oj < b.len(),
        take_a || take_b,
        take_a ==> oi < a.len(),
        take_b ==> oj < b.len(),
        !take_a ==> oi == a.len() || tine_lt(b[oj], a[oi]),
        !take_b ==> oj == b.len() || tine_lt(a[oi], b[oj]),
        take_a && take_b ==> same_place(a[oi], b[oj]),
        e == (if take_a { a[oi] } else { b[oj] }),
        t.point == e.point,
        t.ub == combine_spec(op, if take_a { a[oi].ub } else { ora }, if take_b { b[oj].ub } else { orb }),
        t.incl == combine_spec(
            op,
            if take_a { a[oi].incl } else { ora },
            if take_b { b[oj].incl } else { orb },
        ),
        t.lb == combine_spec(op, if take_a { a[oi].lb } else { ora }, if take_b { b[oj].lb } else { orb }),
        emit == marks_change(t),
        combine_shape(a, b, op, oi, oj, ora, orb, oout),
        i == (if take_a { oi + 1 } else { oi }),
        j == (if take_b { oj + 1 } else { oj }),
        ra == (if take_a { a[oi].lb } else { ora }),
        rb == (if take_b { b[oj].lb } else { orb }),
        out == (if emit { oout.push(t) } else { oout }),
    ensures
        combine_shape(a, b, op, i, j, ra, rb, out),
        ora == (oi > 0 && a[oi - 1].lb),
        orb == (oj > 0 && b[oj - 1].lb),
        oi > 0 && oj < b.len() ==> tine_lt(a[oi - 1], b[oj]),
        oj > 0 && oi < a.len() ==> tine_lt(b[oj - 1], a[oi]),
        emit ==> same_place(e, t),
        emit ==> tine_ok(t),
        t.ub == combine_spec(op, ora, orb),
        sorted(out),
        sorted(oout),
        forall|k: int| 0 <= k < oout.len() ==> tine_lt(#[trigger] oout[k], e),
        oout.len() > 0 ==> oout[oout.len() - 1].lb == combine_spec(op, ora, orb),
        oout.len() == 0 ==> !combine_spec(op, ora, orb),
{
    lemma_shape_elim(a, b, op, oi, oj, ora, orb, oout);
    lemma_combine_flags(a, b, op, oi, oj, ora, orb, take_a, take_b, t);
    if emit {
        lemma_combine_place(a, b, op, oi, oj, ora, orb, take_a, take_b, e, t);
    }
    lemma_combine_before(a, b, oi, oj, take_a, take_b, e, oout);
    lemma_combine_out(oout, out, e, t, emit);
    lemma_combine_next(a, b, oi, oj, take_a, take_b, e, t, oout, emit, i, j, out);
    if emit {
        assert forall|k: int| 0 <= k < out.len() implies tine_ok(#[trigger] out[k]) && marks_change(out[k]) by {
            if k < oout.len() {
                assert(out[k] == oout[k]);
            }
        }
        if oout.len() > 0 {
            assert(out[0] == oout[0]);
        }
        assert(out[out.len() - 1] == t);
    }
    lemma_shape_intro(a, b, op, i, j, ra, rb, out);
}

/// One step of `combine` extends the points on which its output is right.
#[verifier::rlimit(50)]
proof fn lemma_combine_cover<T: Ord>(
    a: Seq<Tine<T>>,
    b: Seq<Tine<T>>,
    op: Combine,
    oi: int,
    oj: int,
    i: int,
    j: int,
    oout: Seq<Tine<T>>,
    out: Seq<Tine<T>>,
    e: Tine<T>,
    t: Tine<T>,
    emit: bool,
    take_a: bool,
    take_b: bool,
    ora: bool,
    orb: bool,
)
    requires
        ordered::<T>(),
        tines_wf(a),
        tines_wf(b),
        take_a || take_b,
        i == (if take_a { oi + 1 } else { oi }),
        j == (if take_b { oj + 1 } else { oj }),
        0 <= oi <= a.len(),
        0 <= oj <= b.len(),
        i <= a.len(),
        j <= b.len(),
        take_a ==> e == a[oi],
        !take_a ==> e == b[oj],
        take_a && take_b ==> same_place(a[oi], b[oj]),
        take_a && !take_b && oj < b.len() ==> tine_lt(a[oi], b[oj]),
        take_b && !take_a && oi < a.len() ==> tine_lt(b[oj], a[oi]),
        ora == (oi > 0 && a[oi - 1].lb),
        orb == (oj > 0 && b[oj - 1].lb),
        oi > 0 && oj < b.len() ==> tine_lt(a[oi - 1], b[oj]),
        oj > 0 && oi < a.len() ==> tine_lt(b[oj - 1], a[oi]),
        emit ==> same_place(e, t),
        t.point == e.point,
        t.ub == combine_spec(op, ora, orb),
        t.incl == combine_spec(
            op,
            if take_a { a[oi].incl } else { ora },
            if take_b { b[oj].incl } else { orb },
        ),
        t.lb == combine_spec(
            op,
            if take_a { a[oi].lb } else { ora },
            if take_b { b[oj].lb } else { orb },
        ),
        emit == marks_change(t),
        out == (if emit { oout.push(t) } else { oout }),
        sorted(out),
        sorted(oout),
        forall|k: int| 0 <= k < oout.len() ==> tine_lt(#[trigger] oout[k], e),
        oout.len() > 0 ==> oout[oout.len() - 1].lb == combine_spec(op, ora, orb),
        oout.len() == 0 ==> !combine_spec(op, ora, orb),
        combine_right(a, b, op, oi, oj, oout),
    ensures
        combine_right(a, b, op, i, j, out),
{
    reveal(combine_right);
    assert forall|p: T| covered(a, b, i, j, p) implies #[trigger] selects(out, p) == combine_spec(
        op,
        selects(a, p),
        selects(b, p),
    ) by {
        lemma_combine_step(
            a,
            b,
            op,
            oi,
            oj,
            i,
            j,
            oout,
            out,
            e,
            t,
            emit,
            take_a,
            take_b,
            ora,
            orb,
            p,
        );
    }
}

/// The flags of the tine that a step of `combine` makes, against what came
/// before.
proof fn lemma_combine_flags<T: Ord>(
    a: Seq<Tine<T>>,
    b: Seq<Tine<T>>,
    op: Combine,
    oi: int,
    oj: int,
    ora: bool,
    orb: bool,
    take_a: bool,
    take_b: bool,
    t: Tine<T>,
)
    requires
        ordered::<T>(),
        tines_wf(a),
        tines_wf(b),
        0 <= oi <= a.len(),
        0 <= oj <= b.len(),
        take_a ==> oi < a.len(),
        take_b ==> oj < b.len(),
        ora == (oi > 0 && a[oi - 1].lb),
        orb == (oj > 0 && b[oj - 1].lb),
        t.ub == combine_spec(op, if take_a { a[oi].ub } else { ora }, if take_b { b[oj].ub } else { orb }),
    ensures
        t.ub == combine_spec(op, ora, orb),
{
    if take_a && oi > 0 {
        assert(linked(a, oi - 1));
    }
    if take_b && oj > 0 {
        assert(linked(b, oj - 1));
    }
}

/// Everything `combine` wrote before a step lies below the step's tine.
proof fn lemma_combine_before<T: Ord>(
    a: Seq<Tine<T>>,
    b: Seq<Tine<T>>,
    oi: int,
    oj: int,
    take_a: bool,
    take_b: bool,
    e: Tine<T>,
    oout: Seq<Tine<T>>,
)
    requires
        0 <= oi <= a.len(),
        0 <= oj <= b.len(),
        take_a ==> oi < a.len(),
        take_b ==> oj < b.len(),
        take_a || take_b,
        e == (if take_a { a[oi] } else { b[oj] }),
        forall|k: int| 0 <= k < oout.len() && oi < a.len() ==> tine_lt(#[trigger] oout[k], a[oi]),
        forall|k: int| 0 <= k < oout.len() && oj < b.len() ==> tine_lt(#[trigger] oout[k], b[oj]),
    ensures
        forall|k: int| 0 <= k < oout.len() ==> tine_lt(#[trigger] oout[k], e),
{
}

/// Appending the step's tine keeps what `combine` wrote in order and linked.
proof fn lemma_combine_out<T: Ord>(oout: Seq<Tine<T>>, out: Seq<Tine<T>>, e: Tine<T>, t: Tine<T>, emit: bool)
    requires
        ordered::<T>(),
        sorted(oout),
        emit ==> same_place(e, t),
        out == (if emit { oout.push(t) } else { oout }),
        forall|k: int| 0 <= k < oout.len() ==> tine_lt(#[trigger] oout[k], e),
        forall|k: int| 0 <= k < oout.len() - 1 ==> #[trigger] linked(oout, k),
        emit && oout.len() > 0 ==> oout[oout.len() - 1].lb == t.ub,
    ensures
        sorted(out),
        forall|k: int| 0 <= k < out.len() - 1 ==> #[trigger] linked(out, k),
{
    lemma_places::<T>();
    if emit {
        assert forall|k: int| 0 <= k < oout.len() implies #[trigger] out[k] == oout[k] by {}
        assert(out[oout.len() as int] == t);
        assert forall|m: int, n: int| 0 <= m < n < out.len() implies #[trigger] tine_lt(out[m], out[n]) by {
            if n == oout.len() {
                assert(tine_lt(oout[m], e));
            } else {
                assert(tine_lt(oout[m], oout[n]));
            }
        }
        assert forall|k: int| 0 <= k < out.len() - 1 implies #[trigger] linked(out, k) by {
            if k + 1 < oout.len() {
                assert(linked(oout, k));
                assert(out[k + 1] == oout[k + 1]);
            }
        }
    }
}

/// After a step, what `combine` wrote lies below the next unread tines, and
/// the last read tine of each input below the next unread one of the other.
proof fn lemma_combine_next<T: Ord>(
    a: Seq<Tine<T>>,
    b: Seq<Tine<T>>,
    oi: int,
    oj: int,
    take_a: bool,
    take_b: bool,
    e: Tine<T>,
    t: Tine<T>,
    oout: Seq<Tine<T>>,
    emit: bool,
    i: int,
    j: int,
    out: Seq<Tine<T>>,
)
    requires
        ordered::<T>(),
        tines_wf(a),
        tines_wf(b),
        0 <= oi <= a.len(),
        0 <= oj <= b.len(),
        take_a || take_b,
        take_a ==> oi < a.len(),
        take_b ==> oj < b.len(),
        !take_a ==> oi == a.len() || tine_lt(b[oj], a[oi]),
        !take_b ==> oj == b.len() || tine_lt(a[oi], b[oj]),
        take_a && take_b ==> same_place(a[oi], b[oj]),
        e == (if take_a { a[oi] } else { b[oj] }),
        emit ==> same_place(e, t),
        t.point == e.point,
        oi > 0 && oj < b.len() ==> tine_lt(a[oi - 1], b[oj]),
        oj > 0 && oi < a.len() ==> tine_lt(b[oj - 1], a[oi]),
        forall|k: int| 0 <= k < oout.len() ==> tine_lt(#[trigger] oout[k], e),
        i == (if take_a { oi + 1 } else { oi }),
        j == (if take_b { oj + 1 } else { oj }),
        out == (if emit { oout.push(t) } else { oout }),
    ensures
        i > 0 && j < b.len() ==> tine_lt(a[i - 1], b[j]),
        j > 0 && i < a.len() ==> tine_lt(b[j - 1], a[i]),
        forall|k: int| 0 <= k < out.len() && i < a.len() ==> tine_lt(#[trigger] out[k], a[i]),
        forall|k: int| 0 <= k < out.len() && j < b.len() ==> tine_lt(#[trigger] out[k], b[j]),
{
    lemma_places::<T>();
    if take_a && i < a.len() {
        assert(tine_lt(a[oi], a[i]));
    }
    if take_b && j < b.len() {
        assert(tine_lt(b[oj], b[j]));
    }
    assert(i < a.len() ==> tine_lt(e, a[i]));
    assert(j < b.len() ==> tine_lt(e, b[j]));
    assert forall|k: int| 0 <= k < out.len() && i < a.len() implies tine_lt(#[trigger] out[k], a[i]) by {
        if k < oout.len() {
            assert(out[k] == oout[k]);
            assert(tine_lt(oout[k], e));
        } else {
            assert(out[k] == t);
            assert(emit);
        }
    }
    assert forall|k: int| 0 <= k < out.len() && j < b.len() implies tine_lt(#[trigger] out[k], b[j]) by {
        if k < oout.len() {
            assert(out[k] == oout[k]);
            assert(tine_lt(oout[k], e));
        } else {
            assert(out[k] == t);
            assert(emit);
        }
    }
    if i > 0 && j < b.len() {
        if take_b && !take_a {
            assert(tine_lt(a[i - 1], b[oj]));
        }
    }
    if j > 0 && i < a.len() {
        if take_a && !take_b {
            assert(tine_lt(b[j - 1], a[oi]));
        }
    }
}

/// The tine that a step of `combine` makes stands where the step's input
/// tine stands, and an infinite one is well formed.
proof fn lemma_combine_place<T: Ord>(
    a: Seq<Tine<T>>,
    b: Seq<Tine<T>>,
    op: Combine,
    oi: int,
    oj: int,
    ora: bool,
    orb: bool,
    take_a: bool,
    take_b: bool,
    e: Tine<T>,
    t: Tine<T>,
)
    requires
        ordered::<T>(),
        tines_wf(a),
        tines_wf(b),
        0 <= oi <= a.len(),
        0 <= oj <= b.len(),
        ora == (oi > 0 && a[oi - 1].lb),
        orb == (oj > 0 && b[oj - 1].lb),
        oi > 0 && oj < b.len() ==> tine_lt(a[oi - 1], b[oj]),
        oj > 0 && oi < a.len() ==> tine_lt(b[oj - 1], a[oi]),
        take_a || take_b,
        take_a ==> oi < a.len(),
        take_b ==> oj < b.len(),
        !take_a ==> oi == a.len() || tine_lt(b[oj], a[oi]),
        !take_b ==> oj == b.len() || tine_lt(a[oi], b[oj]),
        take_a && take_b ==> same_place(a[oi], b[oj]),
        e == (if take_a { a[oi] } else { b[oj] }),
        t.point == e.point,
        t.ub == combine_spec(op, if take_a { a[oi].ub } else { ora }, if take_b { b[oj].ub } else { orb }),
        t.incl == combine_spec(
            op,
            if take_a { a[oi].incl } else { ora },
            if take_b { b[oj].incl } else { orb },
        ),
        t.lb == combine_spec(op, if take_a { a[oi].lb } else { ora }, if take_b { b[oj].lb } else { orb }),
        marks_change(t),
    ensures
        same_place(e, t),
        tine_ok(t),
{
    lemma_places::<T>();
    if e.point is None {
        if e.lb {
            if oi > 0 {
                if take_a {
                    assert(tine_lt(a[oi - 1], a[oi]));
                } else {
                    assert(tine_lt(a[oi - 1], b[oj]));
                }
            }
            if oj > 0 {
                if take_b {
                    assert(tine_lt(b[oj - 1], b[oj]));
                } else {
                    assert(tine_lt(b[oj - 1], a[oi]));
                }
            }
        } else {
            if !take_b && oj == b.len() && oj > 0 {
                assert(!b[oj - 1].lb);
            }
            if !take_a && oi == a.len() && oi > 0 {
                assert(!a[oi - 1].lb);
            }
        }
    }
}

/// One step of `combine` keeps its output right on every point it has
/// passed.
proof fn lemma_combine_step<T: Ord>(
    a: Seq<Tine<T>>,
    b: Seq<Tine<T>>,
    op: Combine,
    oi: int,
    oj: int,
    i: int,
    j: int,
    oout: Seq<Tine<T>>,
    out: Seq<Tine<T>>,
    e: Tine<T>,
    t: Tine<T>,
    emit: bool,
    take_a: bool,
    take_b: bool,
    ora: bool,
    orb: bool,
    p: T,
)
    requires
        ordered::<T>(),
        tines_wf(a),
        tines_wf(b),
        take_a || take_b,
        i == (if take_a { oi + 1 } else { oi }),
        j == (if take_b { oj + 1 } else { oj }),
        0 <= oi <= a.len(),
        0 <= oj <= b.len(),
        i <= a.len(),
        j <= b.len(),
        take_a ==> e == a[oi],
        !take_a ==> e == b[oj],
        take_a && take_b ==> same_place(a[oi], b[oj]),
        take_a && !take_b && oj < b.len() ==> tine_lt(a[oi], b[oj]),
        take_b && !take_a && oi < a.len() ==> tine_lt(b[oj], a[oi]),
        ora == (oi > 0 && a[oi - 1].lb),
        orb == (oj > 0 && b[oj - 1].lb),
        oi > 0 && oj < b.len() ==> tine_lt(a[oi - 1], b[oj]),
        oj > 0 && oi < a.len() ==> tine_lt(b[oj - 1], a[oi]),
        emit ==> same_place(e, t),
        t.point == e.point,
        t.ub == combine_spec(op, ora, orb),
        t.incl == combine_spec(
            op,
            if take_a { a[oi].incl } else { ora },
            if take_b { b[oj].incl } else { orb },
        ),
        t.lb == combine_spec(
            op,
            if take_a { a[oi].lb } else { ora },
            if take_b { b[oj].lb } else { orb },
        ),
        emit == marks_change(t),
        out == (if emit { oout.push(t) } else { oout }),
        sorted(out),
        sorted(oout),
        forall|k: int| 0 <= k < oout.len() ==> tine_lt(#[trigger] oout[k], e),
        oout.len() > 0 ==> oout[oout.len() - 1].lb == combine_spec(op, ora, orb),
        oout.len() == 0 ==> !combine_spec(op, ora, orb),
        forall|q: T|
            covered(a, b, oi, oj, q) ==> #[trigger] selects(oout, q) == combine_spec(
                op,
                selects(a, q),
                selects(b, q),
            ),
        covered(a, b, i, j, p),
    ensures
        selects(out, p) == combine_spec(op, selects(a, p), selects(b, p)),
{
    lemma_places::<T>();
    if covered(a, b, oi, oj, p) {
        assert(above(e, p));
        if emit {
            lemma_push_above(oout, t, p);
        }
    } else {
        assert(!above(e, p));
        let n = out.len();
        if e.point == Some(p) {
            if take_a {
                lemma_at(a, oi, p);
            } else {
                if oi > 0 {
                    assert(below(a[oi - 1], p));
                }
                lemma_region(a, oi, p);
            }
            if take_b {
                lemma_at(b, oj, p);
            } else {
                if oj > 0 {
                    assert(below(b[oj - 1], p));
                }
                lemma_region(b, oj, p);
            }
            if emit {
                lemma_at(out, n - 1, p);
            } else {
                if n > 0 {
                    assert(below(oout[n - 1], p));
                }
                lemma_region(out, n as int, p);
            }
        } else {
            assert(below(e, p));
            if i > 0 {
                if take_a {
                    assert(a[i - 1] == e);
                } else {
                    assert(below(a[i - 1], p));
                }
            }
            lemma_region(a, i, p);
            if j > 0 {
                if take_b {
                    assert(same_place(b[j - 1], e));
                } else {
                    assert(below(b[j - 1], p));
                }
            }
            lemma_region(b, j, p);
            if emit {
                assert(out[n - 1] == t);
                assert(below(t, p));
            } else if n > 0 {
                assert(below(oout[n - 1], p));
            }
            lemma_region(out, n as int, p);
        }
    }
}

} // verus!
