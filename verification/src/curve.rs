//! Editing a tone curve: its knots are grabbed, added, dragged and deleted with
//! the pointer.
//!
//! Knots lie in the unit square, output upwards. The distance between two screen
//! positions is left to the caller.

use crate::arith::law_sums_are_monotone;
use crate::camera_raw::unit_range;
use crate::exact::{
    law_difference_tracks, law_limit_tracks, law_product_tracks, law_quotient, law_sum_tracks,
    lemma_unit, parts, size, value, within,
};
use crate::geometry::{Point, Rect, LEAST_EXTENT, ONE};
use crate::scalar::Scalar;
use vstd::prelude::*;

verus! {

/// 12, how near to a knot the pointer has to be, in screen points.
pub const GRAB_RANGE: u32 = 0x4140_0000;

/// A knot: input and output.
pub type Knot = (Scalar, Scalar);

/// Where a knot is shown in the editor's box.
pub open spec fn shown(p: Knot, rect: Rect) -> Point {
    Point {
        x: rect.min.x.sum(p.0.product(rect.spec_width())),
        y: rect.max.y.difference(p.1.product(rect.spec_height())),
    }
}

/// Where a knot is shown in the editor's box.
pub fn to_screen(p: Knot, rect: Rect) -> (r: Point)
    ensures
        r == shown(p, rect),
{
    Point {
        x: rect.min.x.plus(p.0.times(rect.width())),
        y: rect.max.y.minus(p.1.times(rect.height())),
    }
}

/// The knot that a screen position stands for.
pub open spec fn pointed(pos: Point, rect: Rect) -> Knot {
    (
        unit_range(pos.x.difference(rect.min.x).quotient(rect.spec_width())),
        unit_range(rect.max.y.difference(pos.y).quotient(rect.spec_height())),
    )
}

/// The knot that a screen position stands for.
pub fn to_norm(pos: Point, rect: Rect) -> (r: Knot)
    ensures
        r == pointed(pos, rect),
{
    let (zero, one): (Scalar, Scalar) = (Scalar::zero(), Scalar { bits: ONE });
    (
        pos.x.minus(rect.min.x).over(rect.width()).clamp(zero, one),
        rect.max.y.minus(pos.y).over(rect.height()).clamp(zero, one),
    )
}

/// `i` is the first of the nearest among the distances `from..to` that are below
/// the grab range.
pub open spec fn nearest(d: Seq<Scalar>, from: int, to: int, i: int) -> bool {
    let limit = Scalar { bits: GRAB_RANGE };
    &&& from <= i < to
    &&& d[i].less(limit)
    &&& forall|j: int|
        from <= j < to && (#[trigger] d[j]).less(limit) ==> d[i].at_most(d[j]) && (j < i
            ==> d[i].less(d[j]))
}

/// No distance among `from..to` is below the grab range.
pub open spec fn out_of_reach(d: Seq<Scalar>, from: int, to: int) -> bool {
    forall|j: int| from <= j < to ==> !(#[trigger] d[j]).less(Scalar { bits: GRAB_RANGE })
}

fn nearest_of(d: &Vec<Scalar>, from: usize, to: usize) -> (r: Option<usize>)
    requires
        to <= d@.len(),
    ensures
        match r {
            Some(i) => nearest(d@, from as int, to as int, i as int),
            None => out_of_reach(d@, from as int, to as int),
        },
{
    let mut best: Option<usize> = None;
    let mut best_d: Scalar = Scalar { bits: GRAB_RANGE };
    let mut i: usize = from;
    if from >= to {
        return None;
    }
    while i < to
        invariant
            from <= i <= to <= d@.len(),
            match best {
                Some(k) => best_d == d@[k as int] && nearest(d@, from as int, i as int, k as int),
                None => best_d.bits == GRAB_RANGE && out_of_reach(d@, from as int, i as int),
            },
        decreases to - i,
    {
        if d[i].lt(best_d) {
            best_d = d[i];
            best = Some(i);
        }
        i = i + 1;
    }
    best
}

/// `d` are the distances from the knots, as shown, to a screen position.
pub open spec fn distances<D: Fn(Point, Point) -> Scalar>(
    dist: D,
    pts: Seq<Knot>,
    rect: Rect,
    pos: Point,
    d: Seq<Scalar>,
) -> bool {
    &&& d.len() == pts.len()
    &&& forall|i: int|
        0 <= i < d.len() ==> call_ensures(dist, (shown(pts[i], rect), pos), #[trigger] d[i])
}

fn measure<D: Fn(Point, Point) -> Scalar>(
    dist: &D,
    pts: &Vec<Knot>,
    rect: Rect,
    pos: Point,
) -> (d: Vec<Scalar>)
    requires
        forall|a: Point, b: Point| #[trigger] call_requires(*dist, (a, b)),
    ensures
        distances(*dist, pts@, rect, pos, d@),
{
    let mut d: Vec<Scalar> = Vec::new();
    let mut i: usize = 0;
    while i < pts.len()
        invariant
            i <= pts@.len(),
            forall|a: Point, b: Point| #[trigger] call_requires(*dist, (a, b)),
            d@.len() == i,
            forall|j: int|
                0 <= j < i ==> call_ensures(
                    *dist,
                    (shown(pts@[j], rect), pos),
                    #[trigger] d@[j],
                ),
        decreases pts@.len() - i,
    {
        d.push(dist(to_screen(pts[i], rect), pos));
        i = i + 1;
    }
    d
}

/// The knots are in the order of their inputs.
pub open spec fn ordered(s: Seq<Knot>) -> bool {
    forall|i: int, j: int|
        0 <= i < j < s.len() ==> (#[trigger] s[i]).0.at_most((#[trigger] s[j]).0)
}

/// How many of the knots at the front have an input up to that of `p`.
pub open spec fn slot(s: Seq<Knot>, p: Knot) -> int
    decreases s.len(),
{
    if s.len() == 0 {
        0
    } else if p.0.less(s.last().0) {
        slot(s.drop_last(), p)
    } else {
        s.len() as int
    }
}

/// The knots in the order of their inputs; those with the same input stay in the
/// order they have.
pub open spec fn arranged(s: Seq<Knot>) -> Seq<Knot>
    decreases s.len(),
{
    if s.len() == 0 {
        s
    } else {
        let front = arranged(s.drop_last());
        front.insert(slot(front, s.last()), s.last())
    }
}

/// The place of the first knot that equals `p`, or 0.
pub open spec fn knot_place(s: Seq<Knot>, p: Knot) -> int {
    if exists|i: int| 0 <= i < s.len() && equal_knots(#[trigger] s[i], p) {
        choose|i: int|
            0 <= i < s.len() && equal_knots(#[trigger] s[i], p) && forall|j: int|
                0 <= j < i ==> !equal_knots(#[trigger] s[j], p)
    } else {
        0
    }
}

pub open spec fn equal_knots(a: Knot, b: Knot) -> bool {
    a.0.same(b.0) && a.1.same(b.1)
}

proof fn lemma_slot(s: Seq<Knot>, p: Knot)
    ensures
        0 <= slot(s, p) <= s.len(),
        forall|i: int| slot(s, p) <= i < s.len() ==> p.0.less((#[trigger] s[i]).0),
        slot(s, p) > 0 ==> !p.0.less(s[slot(s, p) - 1].0),
    decreases s.len(),
{
    if s.len() > 0 && p.0.less(s.last().0) {
        let front = s.drop_last();
        lemma_slot(front, p);
        assert forall|i: int| slot(s, p) <= i < s.len() implies p.0.less((#[trigger] s[i]).0) by {
            if i < s.len() - 1 {
                assert(front[i] == s[i]);
            }
        }
        if slot(s, p) > 0 {
            assert(front[slot(s, p) - 1] == s[slot(s, p) - 1]);
        }
    }
}

proof fn lemma_arranged_len(s: Seq<Knot>)
    ensures
        arranged(s).len() == s.len(),
    decreases s.len(),
{
    if s.len() > 0 {
        lemma_arranged_len(s.drop_last());
        lemma_slot(arranged(s.drop_last()), s.last());
    }
}

/// Put the knots in the order of their inputs.
fn arrange(pts: &mut Vec<Knot>)
    ensures
        final(pts)@ == arranged(old(pts)@),
{
    let n: usize = pts.len();
    let mut out: Vec<Knot> = Vec::new();
    let mut i: usize = 0;
    assert(pts@.take(0) =~= Seq::<Knot>::empty());
    while i < n
        invariant
            i <= n == pts@.len(),
            pts@ == old(pts)@,
            out@.len() == i,
            out@ == arranged(pts@.take(i as int)),
        decreases n - i,
    {
        let p: Knot = pts[i];
        let mut k: usize = i;
        proof {
            lemma_slot(out@, p);
            assert(out@.take(k as int) =~= out@);
        }
        while k > 0 && p.0.lt(out[k - 1].0)
            invariant
                0 <= k <= out@.len(),
                slot(out@, p) == slot(out@.take(k as int), p),
            ensures
                slot(out@, p) == k,
            decreases k,
        {
            assert(out@.take(k as int).drop_last() =~= out@.take(k - 1));
            k = k - 1;
        }
        proof {
            let next = pts@.take(i + 1);
            assert(next.drop_last() =~= pts@.take(i as int));
            assert(next.last() == p);
        }
        out.insert(k, p);
        i = i + 1;
    }
    assert(pts@.take(i as int) =~= pts@);
    *pts = out;
}

fn place_of(pts: &Vec<Knot>, p: Knot) -> (r: usize)
    ensures
        r == knot_place(pts@, p),
{
    let mut i: usize = 0;
    while i < pts.len()
        invariant
            i <= pts@.len(),
            forall|j: int| 0 <= j < i ==> !equal_knots(#[trigger] pts@[j], p),
        decreases pts@.len() - i,
    {
        if pts[i].0.equals(p.0) && pts[i].1.equals(p.1) {
            assert(equal_knots(pts@[i as int], p));
            return i;
        }
        i = i + 1;
    }
    0
}

/// What a press makes of the knots, given their distances from the pointer: the
/// nearest one in reach is grabbed, or a new one is added and grabbed.
pub open spec fn grabbed(
    pts: Seq<Knot>,
    d: Seq<Scalar>,
    at: Knot,
    after: Seq<Knot>,
    i: int,
) -> bool {
    ||| nearest(d, 0, pts.len() as int, i) && after == pts
    ||| out_of_reach(d, 0, pts.len() as int) && after == arranged(pts.push(at)) && i
        == knot_place(after, at)
}

/// Press in the editor: grab the nearest knot in reach, or add one at the
/// pointer and grab that.
pub fn grab_knot<D: Fn(Point, Point) -> Scalar>(
    pts: &mut Vec<Knot>,
    rect: Rect,
    pos: Point,
    dist: &D,
) -> (r: usize)
    requires
        forall|a: Point, b: Point| #[trigger] call_requires(*dist, (a, b)),
    ensures
        exists|d: Seq<Scalar>| #[trigger]
            distances(*dist, old(pts)@, rect, pos, d) && grabbed(
                old(pts)@,
                d,
                pointed(pos, rect),
                final(pts)@,
                r as int,
            ),
{
    let d: Vec<Scalar> = measure(dist, pts, rect, pos);
    let n: usize = pts.len();
    if let Some(i) = nearest_of(&d, 0, n) {
        return i;
    }
    let at: Knot = to_norm(pos, rect);
    pts.push(at);
    arrange(pts);
    place_of(pts, at)
}

/// The inputs that a dragged knot may take: the ends stay at the ends, and the
/// others stay a thousandth away from their neighbours.
pub open spec fn drag_range(s: Seq<Knot>, idx: int) -> (Scalar, Scalar) {
    let gap = Scalar { bits: LEAST_EXTENT };
    if idx == 0 {
        (Scalar { bits: 0 }, Scalar { bits: 0 })
    } else if idx == s.len() - 1 {
        (Scalar { bits: ONE }, Scalar { bits: ONE })
    } else {
        (s[idx - 1].0.sum(gap), s[idx + 1].0.difference(gap))
    }
}

/// The input of a knot dragged to `x`.
pub open spec fn dragged_input(s: Seq<Knot>, idx: int, x: Scalar) -> Scalar {
    let (lo, hi) = drag_range(s, idx);
    if idx == 0 || idx == s.len() - 1 {
        lo
    } else {
        x.limited(lo, hi)
    }
}

/// Drag a knot to the pointer. A knot between neighbours that are too close to
/// leave it any room cannot be dragged.
pub fn drag_knot(pts: &mut Vec<Knot>, idx: usize, rect: Rect, pos: Point)
    requires
        idx < old(pts)@.len(),
        drag_range(old(pts)@, idx as int).0.at_most(drag_range(old(pts)@, idx as int).1),
    ensures
        final(pts)@ == old(pts)@.update(
            idx as int,
            (
                dragged_input(old(pts)@, idx as int, pointed(pos, rect).0),
                pointed(pos, rect).1,
            ),
        ),
{
    let (x, y): Knot = to_norm(pos, rect);
    let n: usize = pts.len();
    let gap: Scalar = Scalar { bits: LEAST_EXTENT };
    let input: Scalar = if idx == 0 {
        Scalar::zero()
    } else if idx == n - 1 {
        Scalar { bits: ONE }
    } else {
        x.clamp(pts[idx - 1].0.plus(gap), pts[idx + 1].0.minus(gap))
    };
    pts[idx] = (input, y);
}

/// What a double click makes of the knots: the nearest one in reach is deleted,
/// unless it is an end.
pub open spec fn thinned(pts: Seq<Knot>, d: Seq<Scalar>, after: Seq<Knot>) -> bool {
    if pts.len() <= 2 {
        after == pts
    } else {
        ||| out_of_reach(d, 1, pts.len() - 1) && after == pts
        ||| exists|i: int| nearest(d, 1, pts.len() - 1, i) && after == #[trigger] pts.remove(i)
    }
}

/// Double click in the editor: delete the nearest knot in reach. The ends stay.
pub fn delete_knot<D: Fn(Point, Point) -> Scalar>(
    pts: &mut Vec<Knot>,
    rect: Rect,
    pos: Point,
    dist: &D,
)
    requires
        forall|a: Point, b: Point| #[trigger] call_requires(*dist, (a, b)),
    ensures
        exists|d: Seq<Scalar>| #[trigger]
            distances(*dist, old(pts)@, rect, pos, d) && thinned(old(pts)@, d, final(pts)@),
{
    let d: Vec<Scalar> = measure(dist, pts, rect, pos);
    let n: usize = pts.len();
    if n > 2 {
        if let Some(i) = nearest_of(&d, 1, n - 1) {
            pts.remove(i);
            assert(pts@ == old(pts)@.remove(i as int));
        }
    }
    assert(distances(*dist, old(pts)@, rect, pos, d@));
}

/// A number from 0 to 1.
pub open spec fn in_unit_range(v: Scalar) -> bool {
    (Scalar { bits: 0 }).at_most(v) && v.at_most(Scalar { bits: ONE })
}

/// All knots lie in the unit square.
pub open spec fn in_unit_square(s: Seq<Knot>) -> bool {
    forall|i: int|
        0 <= i < s.len() ==> in_unit_range((#[trigger] s[i]).0) && in_unit_range(s[i].1)
}

/// The knots make a curve: at least two of them, in order, in the unit square, from
/// input 0 to input 1.
pub open spec fn is_curve(s: Seq<Knot>) -> bool {
    &&& s.len() >= 2
    &&& ordered(s)
    &&& in_unit_square(s)
    &&& s[0].0.same(Scalar { bits: 0 })
    &&& s.last().0.same(Scalar { bits: ONE })
}

/// Deleting keeps both ends of the curve.
pub proof fn law_delete_keeps_the_ends(pts: Seq<Knot>, d: Seq<Scalar>, after: Seq<Knot>)
    requires
        pts.len() >= 2,
        thinned(pts, d, after),
    ensures
        after.len() >= 2,
        after[0] == pts[0],
        after.last() == pts.last(),
{
}

/// A double click leaves a curve.
pub proof fn law_delete_keeps_the_curve(pts: Seq<Knot>, d: Seq<Scalar>, after: Seq<Knot>)
    requires
        is_curve(pts),
        thinned(pts, d, after),
    ensures
        is_curve(after),
{
    law_delete_keeps_the_ends(pts, d, after);
    if after != pts {
        let k = choose|k: int|
            nearest(d, 1, pts.len() - 1, k) && after == #[trigger] pts.remove(k);
        let from = |i: int|
            if i < k {
                i
            } else {
                i + 1
            };
        assert forall|i: int| 0 <= i < after.len() implies #[trigger] after[i]
            == pts[from(i)] by {}
        assert forall|i: int, j: int| 0 <= i < j < after.len() implies (
        #[trigger] after[i]).0.at_most((#[trigger] after[j]).0) by {
            assert(pts[from(i)].0.at_most(pts[from(j)].0));
        }
    }
}

/// Adding a knot keeps every other, and puts them all in order.
pub proof fn law_added_knots_are_in_order(s: Seq<Knot>)
    requires
        forall|i: int| 0 <= i < s.len() ==> !(#[trigger] s[i]).0.is_nan(),
    ensures
        ordered(arranged(s)),
        arranged(s).to_multiset() == s.to_multiset(),
        forall|i: int| 0 <= i < s.len() ==> !(#[trigger] arranged(s)[i]).0.is_nan(),
    decreases s.len(),
{
    lemma_arranged_len(s);
    if s.len() > 0 {
        let (rest, p) = (s.drop_last(), s.last());
        assert forall|i: int| 0 <= i < rest.len() implies !(#[trigger] rest[i]).0.is_nan() by {
            assert(rest[i] == s[i]);
        }
        law_added_knots_are_in_order(rest);
        lemma_arranged_len(rest);
        let front = arranged(rest);
        let k = slot(front, p);
        lemma_slot(front, p);
        let all = front.insert(k, p);
        assert(!p.0.is_nan()) by {
            assert(s[s.len() - 1] == p);
        }
        assert forall|i: int| 0 <= i < all.len() implies !(#[trigger] all[i]).0.is_nan() by {
            if i < k {
                assert(all[i] == front[i]);
            } else if i > k {
                assert(all[i] == front[i - 1]);
            }
        }
        assert forall|i: int, j: int| 0 <= i < j < all.len() implies (#[trigger] all[i]).0.at_most(
            (#[trigger] all[j]).0,
        ) by {
            if j < k {
                assert(all[i] == front[i] && all[j] == front[j]);
            } else if i > k {
                assert(all[i] == front[i - 1] && all[j] == front[j - 1]);
            } else if j == k {
                assert(all[i] == front[i]);
                assert(front[i].0.at_most(front[k - 1].0) || i == k - 1);
            } else if i == k {
                assert(all[j] == front[j - 1]);
            } else {
                assert(all[i] == front[i] && all[j] == front[j - 1]);
                if i < j - 1 {
                    assert(front[i].0.at_most(front[j - 1].0));
                }
            }
        }
        all.to_multiset_ensures();
        rest.to_multiset_ensures();
        assert(all.remove(k) =~= front);
        assert(all[k] == p && all.contains(p));
        assert(all.to_multiset() =~= front.to_multiset().insert(p));
        assert(s =~= rest.push(p));
        assert(rest.push(p).to_multiset() =~= rest.to_multiset().insert(p));
    }
}

/// Where the pointer is, is in the unit square, unless the editor's box is so thin that
/// it is nowhere.
pub proof fn law_pointer_is_in_the_square(pos: Point, rect: Rect)
    requires
        !pointed(pos, rect).0.is_nan(),
        !pointed(pos, rect).1.is_nan(),
    ensures
        in_unit_square(seq![pointed(pos, rect)]),
{
}

/// A press leaves a curve, whether it grabs a knot or adds one, and the knot that is
/// held is one of its knots.
pub proof fn law_grab_keeps_the_curve(
    pts: Seq<Knot>,
    d: Seq<Scalar>,
    at: Knot,
    after: Seq<Knot>,
    i: int,
)
    requires
        is_curve(pts),
        in_unit_square(seq![at]),
        grabbed(pts, d, at, after, i),
    ensures
        is_curve(after),
        0 <= i < after.len(),
{
    assert(seq![at][0] == at);
    if !nearest(d, 0, pts.len() as int, i) {
        let all = pts.push(at);
        assert(all.drop_last() =~= pts);
        lemma_arranged(pts);
        let k = slot(pts, at);
        lemma_slot(pts, at);
        assert(after == pts.insert(k, at));
        assert forall|j: int| 0 <= j < all.len() implies !(#[trigger] all[j]).0.is_nan() by {
            if j < pts.len() {
                assert(in_unit_range(pts[j].0));
            }
        }
        law_added_knots_are_in_order(all);
        assert forall|j: int| 0 <= j < after.len() implies in_unit_range((#[trigger] after[j]).0)
            && in_unit_range(after[j].1) by {
            if j < k {
                assert(after[j] == pts[j]);
            } else if j > k {
                assert(after[j] == pts[j - 1]);
            }
        }
        // The pointer is not left of the first knot, nor right of the last.
        assert(in_unit_range(pts[0].0) && in_unit_range(at.0));
        assert(!at.0.less(pts[0].0));
        assert(k > 0);
        if k < pts.len() {
            assert(after.last() == pts.last());
        } else {
            assert(after.last() == at);
            assert(!at.0.less(pts[k - 1].0));
        }
        lemma_knot_place(after, at);
    }
}

/// Knots that are in order stay as they are when they are put in order.
proof fn lemma_arranged(s: Seq<Knot>)
    requires
        ordered(s),
    ensures
        arranged(s) == s,
    decreases s.len(),
{
    if s.len() > 0 {
        let front = s.drop_last();
        assert forall|i: int, j: int| 0 <= i < j < front.len() implies (
        #[trigger] front[i]).0.at_most((#[trigger] front[j]).0) by {
            assert(s[i].0.at_most(s[j].0));
        }
        lemma_arranged(front);
        if front.len() > 0 {
            assert(s[s.len() - 2].0.at_most(s[s.len() - 1].0));
            assert(front.last() == s[s.len() - 2]);
        }
        assert(slot(front, s.last()) == front.len());
        assert(front.insert(front.len() as int, s.last()) =~= s);
    }
}

proof fn lemma_knot_place(s: Seq<Knot>, p: Knot)
    requires
        s.len() > 0,
    ensures
        0 <= knot_place(s, p) < s.len(),
{
    if exists|i: int| 0 <= i < s.len() && equal_knots(#[trigger] s[i], p) {
        let i = choose|i: int| 0 <= i < s.len() && equal_knots(#[trigger] s[i], p);
        lemma_first_place(s, p, i);
    }
}

/// Among the places of knots that equal `p` there is a first one.
proof fn lemma_first_place(s: Seq<Knot>, p: Knot, i: int)
    requires
        0 <= i < s.len(),
        equal_knots(s[i], p),
    ensures
        exists|k: int|
            0 <= k < s.len() && equal_knots(#[trigger] s[k], p) && forall|j: int|
                0 <= j < k ==> !equal_knots(#[trigger] s[j], p),
    decreases i,
{
    if exists|j: int| 0 <= j < i && equal_knots(#[trigger] s[j], p) {
        let j = choose|j: int| 0 <= j < i && equal_knots(#[trigger] s[j], p);
        lemma_first_place(s, p, j);
    }
}

/// Dragging a knot leaves a curve: the ends move up and down only, and no knot
/// passes another.
pub proof fn law_drag_keeps_the_curve(s: Seq<Knot>, idx: int, x: Scalar, y: Scalar)
    requires
        is_curve(s),
        0 <= idx < s.len(),
        in_unit_range(x),
        in_unit_range(y),
        drag_range(s, idx).0.at_most(drag_range(s, idx).1),
    ensures
        is_curve(s.update(idx, (dragged_input(s, idx, x), y))),
{
    let v = dragged_input(s, idx, x);
    let after = s.update(idx, (v, y));
    let gap = Scalar { bits: LEAST_EXTENT };
    assert(in_unit_range(s[idx].0));
    if 0 < idx < s.len() - 1 {
        assert(s[idx - 1].0.at_most(s[idx].0) && s[idx].0.at_most(s[idx + 1].0));
        assert(in_unit_range(s[idx + 1].0));
        assert(in_unit_range(s[idx - 1].0));
        law_sums_are_monotone(s[idx - 1].0, gap);
        law_sums_are_monotone(s[idx + 1].0, gap);
    }
    assert forall|i: int, j: int| 0 <= i < j < after.len() implies (#[trigger] after[i]).0.at_most(
        (#[trigger] after[j]).0,
    ) by {
        assert(in_unit_range(s[i].0) && in_unit_range(s[j].0));
        if i == idx {
            assert(idx == 0 || s[idx + 1].0.at_most(s[j].0) || j == idx + 1);
        } else if j == idx {
            assert(idx == s.len() - 1 || s[i].0.at_most(s[idx - 1].0) || i == idx - 1);
        } else {
            assert(s[i].0.at_most(s[j].0));
        }
    }
}

/// Whether a span of the editor's box is one that a screen can show.
pub open spec fn is_span(lo: Scalar, hi: Scalar) -> bool {
    &&& lo.is_finite() && hi.is_finite()
    &&& size(value(lo)) <= 0x4000real && size(value(hi)) <= 0x4000real
    &&& value(hi) - value(lo) >= 16real
}

proof fn lemma_span(lo: Scalar, hi: Scalar)
    requires
        is_span(lo, hi),
    ensures
        hi.difference(lo).is_finite(),
        within(value(hi.difference(lo)), value(hi) - value(lo), parts(0x8001real)),
{
    law_difference_tracks(
        hi,
        lo,
        value(hi),
        value(lo),
        0real,
        0real,
        0x8000real,
        parts(0x8001real),
    );
}

/// A part of a span and back.
proof fn lemma_span_ratio(d: real, g: real, w: real, k: real, e: real, z: real)
    requires
        w >= 15real,
        0real <= k <= 1real,
        g == k * w,
        within(d, g, e * w),
        z == d / w,
    ensures
        within(z, k, e),
{
    assert(z * w == d) by (nonlinear_arith)
        requires
            z == d / w,
            w >= 15real,
    ;
    assert(z - k <= e && k - z <= e) by (nonlinear_arith)
        requires
            z * w == d,
            g == k * w,
            d - g <= e * w,
            g - d <= e * w,
            w >= 15real,
    ;
}

/// A knot that is shown in the editor's box lies in it, the input from left to right and
/// the output from its bottom upwards, and pointing there gives the knot back, both up to
/// the rounding of screen positions.
pub proof fn law_knot_returns_from_the_screen(p: Knot, rect: Rect)
    requires
        p.0.is_finite() && p.1.is_finite(),
        0real <= value(p.0) <= 1real && 0real <= value(p.1) <= 1real,
        is_span(rect.min.x, rect.max.x) && is_span(rect.min.y, rect.max.y),
    ensures
        ({
            let s = shown(p, rect);
            let k = pointed(s, rect);
            let (w, h) = (
                value(rect.max.x) - value(rect.min.x),
                value(rect.max.y) - value(rect.min.y),
            );
            &&& s.x.is_finite() && s.y.is_finite()
            &&& within(value(s.x), value(rect.min.x) + value(p.0) * w, 1real / 64real)
            &&& within(value(s.y), value(rect.max.y) - value(p.1) * h, 1real / 64real)
            &&& within(value(k.0), value(p.0), 1real / 512real)
            &&& within(value(k.1), value(p.1), 1real / 512real)
        }),
{
    lemma_shown_axis(p.0, rect.min.x, rect.max.x, rect.min.x);
    lemma_shown_axis(p.1, rect.min.y, rect.max.y, rect.max.y);
}

proof fn lemma_shown_axis(p: Scalar, lo: Scalar, hi: Scalar, from: Scalar)
    requires
        p.is_finite() && 0real <= value(p) <= 1real,
        is_span(lo, hi),
        from.is_finite() && size(value(from)) <= 0x4000real,
    ensures
        ({
            let span = hi.difference(lo);
            let (up, down) = (from.sum(p.product(span)), from.difference(p.product(span)));
            let w = value(hi) - value(lo);
            &&& up.is_finite() && down.is_finite()
            &&& within(value(up), value(from) + value(p) * w, 1real / 64real)
            &&& within(value(down), value(from) - value(p) * w, 1real / 64real)
            &&& within(
                value(unit_range(up.difference(from).quotient(span))),
                value(p),
                1real / 512real,
            )
            &&& within(
                value(unit_range(from.difference(down).quotient(span))),
                value(p),
                1real / 512real,
            )
        }),
{
    let span = hi.difference(lo);
    let (x, w, f) = (value(p), value(hi) - value(lo), value(from));
    lemma_unit();
    lemma_span(lo, hi);
    law_product_tracks(
        p,
        span,
        x,
        w,
        0real,
        parts(0x8001real),
        1real,
        0x8000real,
        parts(0x8001real),
        0x8000real,
        parts(0x1_0002real),
    );
    let d = p.product(span);
    let g = x * w;
    law_sum_tracks(from, d, f, g, 0real, parts(0x1_0002real), 0xc000real, parts(0x1_c003real));
    law_difference_tracks(
        from,
        d,
        f,
        g,
        0real,
        parts(0x1_0002real),
        0xc000real,
        parts(0x1_c003real),
    );
    let (up, down) = (from.sum(d), from.difference(d));
    law_difference_tracks(
        up,
        from,
        f + g,
        f,
        parts(0x1_c003real),
        0real,
        0x8000real,
        parts(0x2_4004real),
    );
    law_difference_tracks(
        from,
        down,
        f,
        f - g,
        0real,
        parts(0x1_c003real),
        0x8000real,
        parts(0x2_4004real),
    );
    lemma_back_in_span(up.difference(from), span, x, w, g);
    lemma_back_in_span(from.difference(down), span, x, w, g);
}

proof fn lemma_back_in_span(a: Scalar, span: Scalar, x: real, w: real, g: real)
    requires
        a.is_finite() && span.is_finite(),
        0real <= x <= 1real,
        16real <= w <= 0x8000real,
        g == x * w,
        within(value(a), g, parts(0x2_4004real)),
        within(value(span), w, parts(0x8001real)),
    ensures
        unit_range(a.quotient(span)).is_finite(),
        within(value(unit_range(a.quotient(span))), x, 1real / 512real),
{
    lemma_unit();
    let (d, v) = (value(a), value(span));
    let z = d / v;
    let gv = x * v;
    assert(gv - g <= parts(0x8001real) && g - gv <= parts(0x8001real)) by (nonlinear_arith)
        requires
            g == x * w,
            gv == x * v,
            0real <= x <= 1real,
            v - w <= parts(0x8001real),
            w - v <= parts(0x8001real),
            parts(0x8001real) >= 0real,
    ;
    let e = 1real / 1024real;
    lemma_span_ratio(d, gv, v, x, e, z);
    law_quotient(a, span);
    law_limit_tracks(a.quotient(span), x, 1real / 512real);
}

} // verus!
