//! Brush strokes: where dabs fall as the pointer moves, when an undo step begins
//! and ends, and what a stroke marks for a retouch.
//!
//! The length of a distance is left to the caller.

use crate::exact::{
    close, held, law_difference, law_difference_tracks, law_limit_tracks, law_order_of_values,
    law_product, law_product_is_exact, law_product_tracks, law_quotient, law_sum_is_exact,
    law_sum_tracks, lemma_constants, lemma_pattern, lemma_unit, parts, size, value, within,
};
use crate::geometry::{
    dab_box, expand_dirty, joined, DirtyBox, Point, Size, HALF, LEAST_EXTENT, ONE,
};
use crate::gradient::{byte_level, level_of, Rgb8, QUARTER, THREE_QUARTERS};
use crate::grid::{cell, grid_fits, on_grid, pixel_count};
use crate::retouch::{canvas_mask, heal_mark, in_disk, tone_mark, toned};
use crate::scalar::Scalar;
use vstd::arithmetic::mul::*;
use vstd::arithmetic::power2::*;
use vstd::prelude::*;

verus! {

/// 0.15, how far apart dabs are in brush sizes.
pub const SPACING: u32 = 0x3e19_999a;

/// 0.99, the hardest a brush gets.
pub const HARDEST: u32 = 0x3f7d_70a4;

/// 2500, the document pixels per second from which on a stroke is thinnest.
pub const FULL_SPEED: u32 = 0x451c_4000;

/// One disk of paint.
#[derive(Clone, Copy, PartialEq, Eq, Debug)]
pub struct Dab {
    pub center: Point,
    pub radius: Scalar,
    pub hardness: Scalar,
    pub color: [Scalar; 4],
}

/// The brush settings.
#[derive(Clone, Copy, PartialEq, Eq, Structural, Debug)]
pub struct Brush {
    pub color: Rgb8,
    pub size: Scalar,
    pub hardness: Scalar,
    pub opacity: Scalar,
    /// Faster strokes are thinner.
    pub speed_dynamics: bool,
    pub min_size_scale: Scalar,
}

impl Brush {
    /// The distance between dabs, three quarters of a pixel at least.
    pub open spec fn spec_spacing(self) -> Scalar {
        self.size.product(Scalar { bits: SPACING }).greater(Scalar { bits: THREE_QUARTERS })
    }

    pub fn spacing(&self) -> (r: Scalar)
        ensures
            r == self.spec_spacing(),
    {
        self.size.times(Scalar { bits: SPACING }).max(Scalar { bits: THREE_QUARTERS })
    }

    /// How far a dab may reach from the pointer.
    pub open spec fn spec_reach(self) -> Scalar {
        self.size.product(Scalar { bits: HALF }).sum(Scalar { bits: ONE })
    }

    pub fn reach(&self) -> (r: Scalar)
        ensures
            r == self.spec_reach(),
    {
        self.size.times(Scalar { bits: HALF }).plus(Scalar { bits: ONE })
    }

    /// `d` is the dab at a position.
    pub open spec fn dabs<F: Fn(Scalar) -> Scalar>(
        self,
        linear: F,
        pos: Point,
        alpha: Scalar,
        size_scale: Scalar,
        d: Dab,
    ) -> bool {
        &&& d.center == pos
        &&& d.radius == self.size.product(Scalar { bits: HALF }).product(size_scale).greater(
            Scalar { bits: HALF },
        )
        &&& d.hardness == self.hardness.limited(Scalar { bits: 0 }, Scalar { bits: HARDEST })
        &&& call_ensures(linear, (byte_level(self.color.r),), d.color@[0])
        &&& call_ensures(linear, (byte_level(self.color.g),), d.color@[1])
        &&& call_ensures(linear, (byte_level(self.color.b),), d.color@[2])
        &&& d.color@[3] == alpha
    }

    /// The dab at a position, given the transfer from display space to linear
    /// light.
    pub fn dab_at<F: Fn(Scalar) -> Scalar>(
        &self,
        doc_pos: Point,
        alpha: Scalar,
        size_scale: Scalar,
        linear: &F,
    ) -> (d: Dab)
        requires
            forall|x: Scalar| #[trigger] call_requires(*linear, (x,)),
        ensures
            self.dabs(*linear, doc_pos, alpha, size_scale, d),
    {
        let half: Scalar = Scalar { bits: HALF };
        Dab {
            center: doc_pos,
            radius: self.size.times(half).times(size_scale).max(half),
            hardness: self.hardness.clamp(Scalar::zero(), Scalar { bits: HARDEST }),
            color: [
                linear(level_of(self.color.r)),
                linear(level_of(self.color.g)),
                linear(level_of(self.color.b)),
                alpha,
            ],
        }
    }

    /// The size of dabs in a stroke over distance `d` in time `dt`.
    pub open spec fn spec_size_scale(self, d: Scalar, dt: Scalar) -> Scalar {
        let one = Scalar { bits: ONE };
        if self.speed_dynamics {
            let speed = d.quotient(dt).quotient(Scalar { bits: FULL_SPEED }).limited(
                Scalar { bits: 0 },
                one,
            );
            one.difference(speed.product(one.difference(self.min_size_scale)))
        } else {
            one
        }
    }

    pub fn size_scale(&self, d: Scalar, dt: Scalar) -> (r: Scalar)
        ensures
            r == self.spec_size_scale(d, dt),
    {
        let one: Scalar = Scalar { bits: ONE };
        if self.speed_dynamics {
            let speed: Scalar = d.over(dt).over(Scalar { bits: FULL_SPEED }).clamp(
                Scalar::zero(),
                one,
            );
            one.minus(speed.times(one.minus(self.min_size_scale)))
        } else {
            one
        }
    }
}

/// The stations of a walk that starts at `t` and goes on in steps up to `d`. It
/// stops where a step is too small to lead anywhere.
pub open spec fn stations(t: Scalar, d: Scalar, step: Scalar) -> Seq<Scalar>
    decreases 0x8000_0000 - t.key(),
{
    if t.at_most(d) {
        let next = t.sum(step);
        if t.less(next) {
            seq![t] + stations(next, d, step)
        } else {
            seq![t]
        }
    } else {
        Seq::empty()
    }
}

/// Where a walk ends: the first station past `d`.
pub open spec fn walk_end(t: Scalar, d: Scalar, step: Scalar) -> Scalar
    decreases 0x8000_0000 - t.key(),
{
    if t.at_most(d) {
        let next = t.sum(step);
        if t.less(next) {
            walk_end(next, d, step)
        } else {
            next
        }
    } else {
        t
    }
}

/// Walk from `t` up to `d`.
fn walk(t: Scalar, d: Scalar, step: Scalar) -> (r: (Vec<Scalar>, Scalar))
    ensures
        r.0@ == stations(t, d, step),
        r.1 == walk_end(t, d, step),
{
    let mut out: Vec<Scalar> = Vec::new();
    let mut cur: Scalar = t;
    while cur.le(d)
        invariant_except_break
            out@ + stations(cur, d, step) == stations(t, d, step),
            walk_end(cur, d, step) == walk_end(t, d, step),
        ensures
            out@ == stations(t, d, step),
            cur == walk_end(t, d, step),
        decreases 0x8000_0000 - cur.key(),
    {
        let next: Scalar = cur.plus(step);
        let ghost before = out@;
        out.push(cur);
        proof {
            assert(before + (seq![cur] + stations(next, d, step)) =~= out@ + stations(
                next,
                d,
                step,
            ));
            assert(before + seq![cur] =~= out@);
        }
        if !cur.lt(next) {
            cur = next;
            break;
        }
        cur = next;
    }
    (out, cur)
}

/// The positions of a walk's stations on the way from `last` along `seg`, which
/// is `d` long.
pub open spec fn spots(last: Point, seg: Point, d: Scalar, ts: Seq<Scalar>) -> Seq<Point> {
    let dir = Point { x: seg.x.quotient(d), y: seg.y.quotient(d) };
    ts.map_values(|t: Scalar| last.spec_plus(dir.spec_scaled(t)))
}

fn place_spots(last: Point, seg: Point, d: Scalar, ts: &Vec<Scalar>) -> (r: Vec<Point>)
    ensures
        r@ == spots(last, seg, d, ts@),
{
    let dir: Point = seg.divided(d);
    let mut out: Vec<Point> = Vec::new();
    let mut i: usize = 0;
    while i < ts.len()
        invariant
            i <= ts@.len(),
            dir.x == seg.x.quotient(d),
            dir.y == seg.y.quotient(d),
            out@.len() == i,
            forall|j: int|
                0 <= j < i ==> #[trigger] out@[j] == last.spec_plus(dir.spec_scaled(ts@[j])),
        decreases ts@.len() - i,
    {
        out.push(last.plus(dir.scaled(ts[i])));
        i = i + 1;
    }
    assert(out@ =~= spots(last, seg, d, ts@));
    out
}

/// A stroke in progress.
#[derive(Clone, Copy, PartialEq, Eq, Structural, Debug)]
pub struct Stroke {
    /// Where the pointer was last; `None` between strokes.
    pub last: Option<Point>,
    /// How far behind the pointer the next dab is due.
    pub residual: Scalar,
    /// What the stroke has touched.
    pub dirty: Option<DirtyBox>,
    /// The stroke goes to the wet layer.
    pub wet: bool,
}

impl Default for Stroke {
    fn default() -> (r: Stroke)
        ensures
            r == (Stroke { last: None, residual: Scalar { bits: 0 }, dirty: None, wet: false }),
    {
        Stroke { last: None, residual: Scalar::zero(), dirty: None, wet: false }
    }
}

/// How a stroke paints.
#[derive(Clone, Copy, PartialEq, Eq, Structural, Debug)]
pub struct StrokeMode {
    /// It is an undo step.
    pub undoable: bool,
    /// It is painted into the wet layer, which is flattened at its end.
    pub wet: bool,
    /// The time since the last frame, where speed decides the size of dabs.
    pub dt: Option<Scalar>,
}

/// What a move of the pointer gives the canvas to do.
pub struct Touch {
    pub begin_command: bool,
    pub wet_begin: bool,
    pub spots: Vec<Point>,
    pub size_scale: Scalar,
}

/// What the end of a stroke gives the canvas to do.
#[derive(Clone, Copy, PartialEq, Eq, Structural, Debug)]
pub struct Release {
    pub commit_command: bool,
    pub wet_end: bool,
}

/// Whether a distance is long enough to draw along.
pub open spec fn far_enough(d: Scalar) -> bool {
    (Scalar { bits: LEAST_EXTENT }).less(d)
}

/// The size of dabs along a distance.
pub open spec fn mode_scale(brush: Brush, mode: StrokeMode, d: Scalar) -> Scalar {
    match mode.dt {
        Some(dt) => brush.spec_size_scale(d, dt),
        None => Scalar { bits: ONE },
    }
}

impl Stroke {
    /// The stroke once it has begun at `cur`.
    pub open spec fn begun(self, cur: Point, brush: Brush, mode: StrokeMode) -> Stroke {
        Stroke {
            last: Some(cur),
            residual: Scalar { bits: 0 },
            dirty: Some(dab_box(cur, brush.spec_reach())),
            wet: self.wet || mode.wet,
        }
    }

    /// The stroke once the pointer has moved on to `cur`, over a distance `d`.
    pub open spec fn moved(self, cur: Point, d: Scalar, brush: Brush) -> Stroke {
        let more = dab_box(cur, brush.spec_reach());
        Stroke {
            last: Some(cur),
            residual: walk_end(self.residual, d, brush.spec_spacing()).difference(d),
            dirty: Some(match self.dirty {
                Some(b) => joined(b, more),
                None => more,
            }),
            wet: self.wet,
        }
    }

    /// What the pointer at `cur` makes of the stroke, and what it gives the canvas
    /// to do.
    pub open spec fn advances<L: Fn(Point) -> Scalar>(
        self,
        cur: Point,
        brush: Brush,
        mode: StrokeMode,
        length: L,
        after: Stroke,
        t: Touch,
    ) -> bool {
        match self.last {
            None => {
                &&& after == self.begun(cur, brush, mode)
                &&& t.begin_command == mode.undoable
                &&& t.wet_begin == mode.wet
                &&& t.spots@ == seq![cur]
                &&& t.size_scale.bits == ONE
            },
            Some(last) => {
                &&& !t.begin_command
                &&& !t.wet_begin
                &&& exists|d: Scalar| #[trigger]
                    call_ensures(length, (cur.spec_minus(last),), d) && if far_enough(d) {
                        &&& after == self.moved(cur, d, brush)
                        &&& t.spots@ == spots(
                            last,
                            cur.spec_minus(last),
                            d,
                            stations(self.residual, d, brush.spec_spacing()),
                        )
                        &&& t.size_scale == mode_scale(brush, mode, d)
                    } else {
                        &&& after == self
                        &&& t.spots@.len() == 0
                    }
            },
        }
    }

    /// The pointer is at `cur`: begin the stroke, or draw on from where it was.
    pub fn advance<L: Fn(Point) -> Scalar>(
        &mut self,
        cur: Point,
        brush: &Brush,
        mode: StrokeMode,
        length: &L,
    ) -> (t: Touch)
        requires
            forall|p: Point| #[trigger] call_requires(*length, (p,)),
        ensures
            old(self).advances(cur, *brush, mode, *length, *final(self), t),
    {
        let one: Scalar = Scalar { bits: ONE };
        match self.last {
            None => {
                self.dirty = Some(expand_dirty(None, cur, brush.reach()));
                if mode.wet {
                    self.wet = true;
                }
                self.last = Some(cur);
                self.residual = Scalar::zero();
                let spots: Vec<Point> = vec![cur];
                assert(spots@ =~= seq![cur]);
                Touch {
                    begin_command: mode.undoable,
                    wet_begin: mode.wet,
                    spots,
                    size_scale: one,
                }
            },
            Some(last) => {
                let seg: Point = cur.minus(last);
                let d: Scalar = length(seg);
                if !d.gt(Scalar { bits: LEAST_EXTENT }) {
                    return Touch {
                        begin_command: false,
                        wet_begin: false,
                        spots: Vec::new(),
                        size_scale: one,
                    };
                }
                let size_scale: Scalar = match mode.dt {
                    Some(dt) => brush.size_scale(d, dt),
                    None => one,
                };
                let (ts, end): (Vec<Scalar>, Scalar) = walk(self.residual, d, brush.spacing());
                let spots: Vec<Point> = place_spots(last, seg, d, &ts);
                self.residual = end.minus(d);
                self.last = Some(cur);
                self.dirty = Some(expand_dirty(self.dirty, cur, brush.reach()));
                Touch { begin_command: false, wet_begin: false, spots, size_scale }
            },
        }
    }

    /// Whether the stroke ends this frame: the button was let go, or the pointer
    /// was lost in the middle of it.
    pub open spec fn ends(self, released: bool, pointed: bool) -> bool {
        released || (self.last is Some && !pointed)
    }

    /// What is left of the stroke at the end of a frame.
    pub open spec fn finished(self, released: bool, pointed: bool) -> Stroke {
        if self.ends(released, pointed) {
            Stroke {
                last: None,
                residual: Scalar { bits: 0 },
                dirty: self.dirty,
                wet: false,
            }
        } else {
            self
        }
    }

    /// End the stroke if it ends this frame.
    pub fn finish(&mut self, released: bool, pointed: bool) -> (r: Release)
        ensures
            r.commit_command == old(self).ends(released, pointed),
            r.wet_end == (r.commit_command && old(self).wet),
            *final(self) == old(self).finished(released, pointed),
    {
        if released || (self.last.is_some() && !pointed) {
            let wet_end: bool = self.wet;
            self.wet = false;
            self.last = None;
            self.residual = Scalar::zero();
            Release { commit_command: true, wet_end }
        } else {
            Release { commit_command: false, wet_end: false }
        }
    }
}

/// The distance between the marks of a retouch with radius `r`, in fractions `k`
/// of the radius and one pixel at least.
pub open spec fn mark_step(r: Scalar, k: u32) -> Scalar {
    r.product(Scalar { bits: k }).greater(Scalar { bits: ONE })
}

/// `marks` is where a retouch marks as the pointer gets to `cur`: there, and on
/// the way from where it was. Nowhere, if it has hardly moved.
pub open spec fn retouched<L: Fn(Point) -> Scalar>(
    length: L,
    last: Option<Point>,
    cur: Point,
    step: Scalar,
    marks: Seq<Point>,
) -> bool {
    match last {
        None => marks == seq![cur],
        Some(l) => exists|d: Scalar| #[trigger]
            call_ensures(length, (cur.spec_minus(l),), d) && marks == (if far_enough(d) {
                spots(l, cur.spec_minus(l), d, stations(Scalar { bits: 0 }, d, step)).push(cur)
            } else {
                Seq::empty()
            }),
    }
}

fn retouch_marks<L: Fn(Point) -> Scalar>(
    length: &L,
    last: Option<Point>,
    cur: Point,
    step: Scalar,
) -> (marks: Vec<Point>)
    requires
        forall|p: Point| #[trigger] call_requires(*length, (p,)),
    ensures
        retouched(*length, last, cur, step, marks@),
        last is None ==> marks@.len() > 0,
{
    match last {
        None => {
            let marks: Vec<Point> = vec![cur];
            assert(marks@ =~= seq![cur]);
            marks
        },
        Some(l) => {
            let seg: Point = cur.minus(l);
            let d: Scalar = length(seg);
            if !d.gt(Scalar { bits: LEAST_EXTENT }) {
                let none: Vec<Point> = Vec::new();
                assert(none@ =~= Seq::<Point>::empty());
                return none;
            }
            let (ts, end): (Vec<Scalar>, Scalar) = walk(Scalar::zero(), d, step);
            let mut marks: Vec<Point> = place_spots(l, seg, d, &ts);
            marks.push(cur);
            marks
        },
    }
}

/// The mask that a stroke marks: a blank one as it begins.
pub open spec fn stroke_mask<T>(
    mask: Seq<T>,
    size: Size,
    last: Option<Point>,
    blank: T,
) -> Seq<T> {
    if last is None {
        Seq::new((size.width * size.height) as nat, |i: int| blank)
    } else {
        canvas_mask(mask, size, blank)
    }
}

/// Whether one of the disks covers a pixel.
pub open spec fn in_disks(marks: Seq<Point>, r: Scalar, x: int, y: int) -> bool {
    exists|i: int| 0 <= i < marks.len() && in_disk(#[trigger] marks[i], r, x, y)
}

/// `out` is the mask with the disks filled in.
pub open spec fn disks_marked(
    mask: Seq<bool>,
    size: Size,
    marks: Seq<Point>,
    r: Scalar,
    out: Seq<bool>,
) -> bool {
    let (w, h) = (size.width as int, size.height as int);
    &&& out.len() == w * h
    &&& forall|x: int, y: int|
        on_grid(w, h, x, y) ==> #[trigger] cell(out, w, x, y) == (cell(mask, w, x, y) || in_disks(
            marks,
            r,
            x,
            y,
        ))
}

/// `mask` and `last` are what a retouch brush at `cur` makes of its marks and of
/// where it was.
pub open spec fn marks_at<L: Fn(Point) -> Scalar>(
    length: L,
    size: Size,
    r: Scalar,
    cur: Point,
    was: Seq<bool>,
    prev: Option<Point>,
    mask: Seq<bool>,
    last: Option<Point>,
) -> bool {
    exists|marks: Seq<Point>| #[trigger]
        retouched(length, prev, cur, mark_step(r, HALF), marks) && if marks.len() > 0 {
            &&& last == Some(cur)
            &&& disks_marked(stroke_mask(was, size, prev, false), size, marks, r, mask)
        } else {
            mask == was && last == prev
        }
}

/// `mask` and `last` are what a retouch brush makes of its marks and of where it was,
/// at `at` if it is down.
pub open spec fn marks_made<L: Fn(Point) -> Scalar>(
    length: L,
    size: Size,
    r: Scalar,
    at: Option<Point>,
    was: Seq<bool>,
    prev: Option<Point>,
    mask: Seq<bool>,
    last: Option<Point>,
) -> bool {
    match at {
        None => mask == was && last == prev,
        Some(cur) => marks_at(length, size, r, cur, was, prev, mask, last),
    }
}

/// Draw a retouch stroke on to `cur` with a disk of radius `r`.
pub fn heal_stroke<L: Fn(Point) -> Scalar>(
    mask: &mut Vec<bool>,
    last: &mut Option<Point>,
    size: Size,
    cur: Point,
    r: Scalar,
    length: &L,
)
    requires
        grid_fits(size.width as int, size.height as int, 1),
        forall|p: Point| #[trigger] call_requires(*length, (p,)),
    ensures
        marks_at(
            *length,
            size,
            r,
            cur,
            old(mask)@,
            *old(last),
            final(mask)@,
            *final(last),
        ),
{
    let step: Scalar = r.times(Scalar { bits: HALF }).max(Scalar { bits: ONE });
    let marks: Vec<Point> = retouch_marks(length, *last, cur, step);
    assert(retouched(*length, *old(last), cur, mark_step(r, HALF), marks@));
    if marks.len() == 0 {
        return;
    }
    let ghost was = *last;
    let ghost (w, h) = (size.width as int, size.height as int);
    if last.is_none() {
        proof {
            lemma_mul_nonnegative(w, h);
        }
        *mask = vec![false;pixel_count(size.width, size.height)];
    }
    let ghost begin = stroke_mask(old(mask)@, size, was, false);
    let mut i: usize = 0;
    proof {
        if was is None {
            assert(mask@ =~= begin);
        }
        assert(canvas_mask(mask@, size, false) =~= begin);
        assert forall|x: int, y: int| on_grid(w, h, x, y) implies !in_disks(
            marks@.take(0),
            r,
            x,
            y,
        ) by {}
    }
    while i < marks.len()
        invariant
            i <= marks@.len(),
            w == size.width,
            h == size.height,
            grid_fits(w, h, 1),
            begin.len() == w * h,
            i == 0 ==> canvas_mask(mask@, size, false) == begin,
            i > 0 ==> disks_marked(begin, size, marks@.take(i as int), r, mask@),
        decreases marks@.len() - i,
    {
        let ghost before = canvas_mask(mask@, size, false);
        heal_mark(mask, size, marks[i], r);
        proof {
            let (done, next) = (marks@.take(i as int), marks@.take(i + 1));
            assert forall|x: int, y: int| on_grid(w, h, x, y) implies #[trigger] cell(
                mask@,
                w,
                x,
                y,
            ) == (cell(begin, w, x, y) || in_disks(next, r, x, y)) by {
                assert(cell(before, w, x, y) == (cell(begin, w, x, y) || in_disks(
                    done,
                    r,
                    x,
                    y,
                )));
                if in_disks(done, r, x, y) {
                    let k = choose|k: int|
                        0 <= k < done.len() && in_disk(#[trigger] done[k], r, x, y);
                    assert(next[k] == done[k]);
                }
                if in_disks(next, r, x, y) {
                    let k = choose|k: int|
                        0 <= k < next.len() && in_disk(#[trigger] next[k], r, x, y);
                    if k < i {
                        assert(done[k] == next[k]);
                    }
                }
                assert(next[i as int] == marks@[i as int]);
            }
        }
        i = i + 1;
    }
    assert(marks@.take(i as int) =~= marks@);
    *last = Some(cur);
}

/// What soft dabs make of coverage `old` at a pixel, one after the other.
pub open spec fn toned_by(
    old: Scalar,
    marks: Seq<Point>,
    r: Scalar,
    flow: Scalar,
    x: int,
    y: int,
) -> Scalar
    decreases marks.len(),
{
    if marks.len() == 0 {
        old
    } else {
        toned(toned_by(old, marks.drop_last(), r, flow, x, y), marks.last(), r, flow, x, y)
    }
}

/// `out` is the coverage with the soft dabs added.
pub open spec fn tones_marked(
    mask: Seq<Scalar>,
    size: Size,
    marks: Seq<Point>,
    r: Scalar,
    flow: Scalar,
    out: Seq<Scalar>,
) -> bool {
    let (w, h) = (size.width as int, size.height as int);
    &&& out.len() == w * h
    &&& forall|x: int, y: int|
        on_grid(w, h, x, y) ==> #[trigger] cell(out, w, x, y) == toned_by(
            cell(mask, w, x, y),
            marks,
            r,
            flow,
            x,
            y,
        )
}

/// `mask` and `last` are what a tonal brush at `cur` makes of its coverage and of
/// where it was.
pub open spec fn tones_at<L: Fn(Point) -> Scalar>(
    length: L,
    size: Size,
    r: Scalar,
    flow: Scalar,
    cur: Point,
    was: Seq<Scalar>,
    prev: Option<Point>,
    mask: Seq<Scalar>,
    last: Option<Point>,
) -> bool {
    exists|marks: Seq<Point>| #[trigger]
        retouched(length, prev, cur, mark_step(r, QUARTER), marks) && if marks.len() > 0 {
            &&& last == Some(cur)
            &&& tones_marked(
                stroke_mask(was, size, prev, Scalar { bits: 0 }),
                size,
                marks,
                r,
                flow,
                mask,
            )
        } else {
            mask == was && last == prev
        }
}

/// `mask` and `last` are what a tonal brush makes of its coverage and of where it was,
/// at `at` if it is down.
pub open spec fn tones_made<L: Fn(Point) -> Scalar>(
    length: L,
    size: Size,
    r: Scalar,
    flow: Scalar,
    at: Option<Point>,
    was: Seq<Scalar>,
    prev: Option<Point>,
    mask: Seq<Scalar>,
    last: Option<Point>,
) -> bool {
    match at {
        None => mask == was && last == prev,
        Some(cur) => tones_at(length, size, r, flow, cur, was, prev, mask, last),
    }
}

/// Draw a tonal stroke on to `cur` with a soft dab of radius `r`.
pub fn tone_stroke<L: Fn(Point) -> Scalar>(
    mask: &mut Vec<Scalar>,
    last: &mut Option<Point>,
    size: Size,
    cur: Point,
    r: Scalar,
    flow: Scalar,
    length: &L,
)
    requires
        grid_fits(size.width as int, size.height as int, 1),
        forall|p: Point| #[trigger] call_requires(*length, (p,)),
    ensures
        tones_at(
            *length,
            size,
            r,
            flow,
            cur,
            old(mask)@,
            *old(last),
            final(mask)@,
            *final(last),
        ),
{
    let step: Scalar = r.times(Scalar { bits: QUARTER }).max(Scalar { bits: ONE });
    let marks: Vec<Point> = retouch_marks(length, *last, cur, step);
    assert(retouched(*length, *old(last), cur, mark_step(r, QUARTER), marks@));
    if marks.len() == 0 {
        return;
    }
    let ghost was = *last;
    let ghost (w, h) = (size.width as int, size.height as int);
    if last.is_none() {
        proof {
            lemma_mul_nonnegative(w, h);
        }
        *mask = vec![Scalar::zero();pixel_count(size.width, size.height)];
    }
    let ghost begin = stroke_mask(old(mask)@, size, was, Scalar { bits: 0 });
    let mut i: usize = 0;
    proof {
        if was is None {
            assert(mask@ =~= begin);
        }
        assert(canvas_mask(mask@, size, Scalar { bits: 0 }) =~= begin);
    }
    while i < marks.len()
        invariant
            i <= marks@.len(),
            w == size.width,
            h == size.height,
            grid_fits(w, h, 1),
            begin.len() == w * h,
            i == 0 ==> canvas_mask(mask@, size, Scalar { bits: 0 }) == begin,
            i > 0 ==> tones_marked(begin, size, marks@.take(i as int), r, flow, mask@),
        decreases marks@.len() - i,
    {
        let ghost before = canvas_mask(mask@, size, Scalar { bits: 0 });
        tone_mark(mask, size, marks[i], r, flow);
        proof {
            let (done, next) = (marks@.take(i as int), marks@.take(i + 1));
            assert(next.drop_last() =~= done);
            assert(next.last() == marks@[i as int]);
            assert forall|x: int, y: int| on_grid(w, h, x, y) implies #[trigger] cell(
                mask@,
                w,
                x,
                y,
            ) == toned_by(cell(begin, w, x, y), next, r, flow, x, y) by {
                assert(cell(before, w, x, y) == toned_by(
                    cell(begin, w, x, y),
                    done,
                    r,
                    flow,
                    x,
                    y,
                ));
            }
        }
        i = i + 1;
    }
    assert(marks@.take(i as int) =~= marks@);
    *last = Some(cur);
}

/// Whether a retouch has anything to work on: a mask of the canvas's size that
/// covers a pixel.
pub fn take_marks(mask: &mut Vec<bool>, size: Size) -> (r: Option<Vec<bool>>)
    requires
        grid_fits(size.width as int, size.height as int, 1),
    ensures
        ({
            let ready = worth_retouching(old(mask)@, size);
            match r {
                Some(m) => ready && m@ == old(mask)@ && final(mask)@.len() == 0,
                None => !ready && *final(mask) == *old(mask),
            }
        }),
{
    let mut any: bool = false;
    let mut i: usize = 0;
    while i < mask.len()
        invariant
            i <= mask@.len(),
            *mask == *old(mask),
            any <==> exists|j: int| 0 <= j < i && mask@[j],
        decreases mask@.len() - i,
    {
        if mask[i] {
            any = true;
        }
        i = i + 1;
    }
    proof {
        lemma_mul_nonnegative(size.width as int, size.height as int);
        if any {
            let j = choose|j: int| 0 <= j < i && mask@[j];
            assert(mask@[j] == true);
        }
    }
    if !any || mask.len() != pixel_count(size.width, size.height) {
        return None;
    }
    let mut taken: Vec<bool> = Vec::new();
    taken.append(mask);
    assert(taken@ =~= old(mask)@);
    Some(taken)
}

/// Whether a tonal retouch has anything to work on: coverage of the canvas's size
/// that is above zero somewhere.
pub fn take_tones(mask: &mut Vec<Scalar>, size: Size) -> (r: Option<Vec<Scalar>>)
    requires
        grid_fits(size.width as int, size.height as int, 1),
    ensures
        ({
            let ready = worth_toning(old(mask)@, size);
            match r {
                Some(m) => ready && m@ == old(mask)@ && final(mask)@.len() == 0,
                None => !ready && *final(mask) == *old(mask),
            }
        }),
{
    let mut any: bool = false;
    let mut i: usize = 0;
    while i < mask.len()
        invariant
            i <= mask@.len(),
            *mask == *old(mask),
            any <==> exists|j: int|
                0 <= j < i && (Scalar { bits: 0 }).less(#[trigger] mask@[j]),
        decreases mask@.len() - i,
    {
        if mask[i].gt(Scalar::zero()) {
            any = true;
        }
        i = i + 1;
    }
    proof {
        lemma_mul_nonnegative(size.width as int, size.height as int);
    }
    if !any || mask.len() != pixel_count(size.width, size.height) {
        return None;
    }
    let mut taken: Vec<Scalar> = Vec::new();
    taken.append(mask);
    assert(taken@ =~= old(mask)@);
    Some(taken)
}

/// Whether marks are worth a retouch: they cover a pixel of the canvas.
pub open spec fn worth_retouching(mask: Seq<bool>, size: Size) -> bool {
    mask.len() == size.width * size.height && mask.contains(true)
}

/// Whether a stroke that was last at `last` ends in a frame.
pub open spec fn ends_at(last: Option<Point>, released: bool, pointed: bool) -> bool {
    released || (last is Some && !pointed)
}

/// What a frame with a retouch brush makes of its marks and of where it was, and
/// the marks that are handed out when the stroke ends and they are worth it.
pub open spec fn retouch_done<L: Fn(Point) -> Scalar>(
    length: L,
    size: Size,
    r: Scalar,
    at: Option<Point>,
    up: (bool, bool),
    was: Seq<bool>,
    prev: Option<Point>,
    now: Seq<bool>,
    next: Option<Point>,
    out: Option<Vec<bool>>,
) -> bool {
    exists|mask: Seq<bool>, last: Option<Point>| #[trigger]
        marks_made(length, size, r, at, was, prev, mask, last) && ({
            let ended = ends_at(last, up.0, up.1);
            &&& next == (if ended {
                None
            } else {
                last
            })
            &&& match out {
                Some(m) => ended && worth_retouching(mask, size) && m@ == mask && now.len() == 0,
                None => !(ended && worth_retouching(mask, size)) && now == mask,
            }
        })
}

/// A frame with a retouch brush of radius `r`, which is at `at` if it marks;
/// `released` and `pointed` say whether the pointer went up and whether it is
/// there.
pub fn retouch_frame<L: Fn(Point) -> Scalar>(
    mask: &mut Vec<bool>,
    last: &mut Option<Point>,
    size: Size,
    at: Option<Point>,
    released: bool,
    pointed: bool,
    r: Scalar,
    length: &L,
) -> (out: Option<Vec<bool>>)
    requires
        grid_fits(size.width as int, size.height as int, 1),
        forall|p: Point| #[trigger] call_requires(*length, (p,)),
    ensures
        retouch_done(
            *length,
            size,
            r,
            at,
            (released, pointed),
            old(mask)@,
            *old(last),
            final(mask)@,
            *final(last),
            out,
        ),
{
    if let Some(cur) = at {
        heal_stroke(mask, last, size, cur, r, length);
    }
    let ghost (mid, there) = (mask@, *last);
    assert(marks_made(*length, size, r, at, old(mask)@, *old(last), mid, there));
    let mut out: Option<Vec<bool>> = None;
    if released || (last.is_some() && !pointed) {
        out = take_marks(mask, size);
        *last = None;
    }
    out
}

/// Whether coverage is worth a tonal retouch: it is above zero somewhere on the
/// canvas.
pub open spec fn worth_toning(mask: Seq<Scalar>, size: Size) -> bool {
    mask.len() == size.width * size.height && exists|j: int|
        0 <= j < mask.len() && (Scalar { bits: 0 }).less(#[trigger] mask[j])
}

/// What a frame with a tonal brush makes of its coverage and of where it was, and
/// the coverage that is handed out when the stroke ends and it is worth it.
pub open spec fn tone_done<L: Fn(Point) -> Scalar>(
    length: L,
    size: Size,
    r: Scalar,
    flow: Scalar,
    at: Option<Point>,
    up: (bool, bool),
    was: Seq<Scalar>,
    prev: Option<Point>,
    now: Seq<Scalar>,
    next: Option<Point>,
    out: Option<Vec<Scalar>>,
) -> bool {
    exists|mask: Seq<Scalar>, last: Option<Point>| #[trigger]
        tones_made(length, size, r, flow, at, was, prev, mask, last) && ({
            let ended = ends_at(last, up.0, up.1);
            &&& next == (if ended {
                None
            } else {
                last
            })
            &&& match out {
                Some(m) => ended && worth_toning(mask, size) && m@ == mask && now.len() == 0,
                None => !(ended && worth_toning(mask, size)) && now == mask,
            }
        })
}

/// A frame with a tonal brush, as [`retouch_frame`] is one with a retouch brush.
pub fn tone_frame<L: Fn(Point) -> Scalar>(
    mask: &mut Vec<Scalar>,
    last: &mut Option<Point>,
    size: Size,
    at: Option<Point>,
    released: bool,
    r: Scalar,
    flow: Scalar,
    length: &L,
) -> (out: Option<Vec<Scalar>>)
    requires
        grid_fits(size.width as int, size.height as int, 1),
        forall|p: Point| #[trigger] call_requires(*length, (p,)),
    ensures
        tone_done(
            *length,
            size,
            r,
            flow,
            at,
            (released, at is Some),
            old(mask)@,
            *old(last),
            final(mask)@,
            *final(last),
            out,
        ),
{
    if let Some(cur) = at {
        tone_stroke(mask, last, size, cur, r, flow, length);
    }
    let ghost (mid, there) = (mask@, *last);
    assert(tones_made(*length, size, r, flow, at, old(mask)@, *old(last), mid, there));
    let mut out: Option<Vec<Scalar>> = None;
    if released || (last.is_some() && at.is_none()) {
        out = take_tones(mask, size);
        *last = None;
    }
    out
}

/// A stroke that has ended leaves no trace but the box it touched, so the next
/// one begins afresh.
pub proof fn law_strokes_do_not_run_on(s: Stroke, cur: Point, brush: Brush, mode: StrokeMode)
    ensures
        ({
            let fresh = Stroke {
                last: None,
                residual: Scalar { bits: 0 },
                dirty: None,
                wet: false,
            };
            s.finished(true, false).begun(cur, brush, mode) == fresh.begun(cur, brush, mode)
        }),
{
}

/// The stations of a walk lie between its start and its goal, in order.
pub proof fn law_stations_are_in_order(t: Scalar, d: Scalar, step: Scalar)
    ensures
        forall|i: int|
            0 <= i < stations(t, d, step).len() ==> t.at_most(
                #[trigger] stations(t, d, step)[i],
            ) && stations(t, d, step)[i].at_most(d),
        forall|i: int, j: int|
            0 <= i < j < stations(t, d, step).len() ==> (#[trigger] stations(t, d, step)[i]).less(
                #[trigger] stations(t, d, step)[j],
            ),
    decreases 0x8000_0000 - t.key(),
{
    if t.at_most(d) {
        let next = t.sum(step);
        if t.less(next) {
            law_stations_are_in_order(next, d, step);
            let (all, rest) = (stations(t, d, step), stations(next, d, step));
            assert forall|i: int| 0 <= i < all.len() implies t.at_most(#[trigger] all[i])
                && all[i].at_most(d) by {
                if i > 0 {
                    assert(all[i] == rest[i - 1]);
                }
            }
            assert forall|i: int, j: int| 0 <= i < j < all.len() implies (#[trigger] all[i]).less(
                #[trigger] all[j],
            ) by {
                assert(all[j] == rest[j - 1]);
                if i > 0 {
                    assert(all[i] == rest[i - 1]);
                }
            }
        }
    }
}

/// Whether the coordinates of two points and the distance between them are numbers
/// that a canvas of up to `m` pixels can have.
pub open spec fn on_canvas(last: Point, cur: Point, d: Scalar, m: real) -> bool {
    &&& 1real <= m <= 0x4_0000real
    &&& last.x.is_finite() && last.y.is_finite() && cur.x.is_finite() && cur.y.is_finite()
    &&& size(value(last.x)) <= m && size(value(last.y)) <= m
    &&& size(value(cur.x)) <= m && size(value(cur.y)) <= m
    &&& d.is_finite() && far_enough(d) && value(d) <= 4real * m
    &&& size(value(cur.x) - value(last.x)) <= 2real * value(d)
    &&& size(value(cur.y) - value(last.y)) <= 2real * value(d)
}

proof fn lemma_part_of_way(
    s: real,
    x: real,
    z: real,
    q: real,
    t: real,
    d: real,
    w: real,
    p: real,
    e: real,
)
    requires
        0real <= t <= d,
        d > 0real,
        z * d == s,
        w * d == t,
        q - z <= p,
        z - q <= p,
        s - x <= e,
        x - s <= e,
        e >= 0real,
    ensures
        0real <= w <= 1real,
        q * t - x * w <= p * t + e,
        x * w - q * t <= p * t + e,
{
    assert(0real <= w && w <= 1real) by (nonlinear_arith)
        requires
            0real <= t <= d,
            d > 0real,
            w * d == t,
    ;
    assert(z * t == s * w) by (nonlinear_arith)
        requires
            z * d == s,
            w * d == t,
    ;
    assert(q * t - z * t <= p * t && z * t - q * t <= p * t) by (nonlinear_arith)
        requires
            q - z <= p,
            z - q <= p,
            t >= 0real,
    ;
    assert(s * w - x * w <= e && x * w - s * w <= e) by (nonlinear_arith)
        requires
            s - x <= e,
            x - s <= e,
            0real <= w <= 1real,
            e >= 0real,
    ;
}

/// On one axis, the place of a station at the distance `t` of `d` is that part of the
/// way, up to rounding.
proof fn lemma_axis_spot(last: Scalar, cur: Scalar, d: Scalar, t: Scalar, m: real)
    requires
        1real <= m <= 0x4_0000real,
        last.is_finite() && cur.is_finite() && d.is_finite() && t.is_finite(),
        size(value(last)) <= m,
        size(value(cur)) <= m,
        far_enough(d),
        value(d) <= 4real * m,
        size(value(cur) - value(last)) <= 2real * value(d),
        0real <= value(t) <= value(d),
    ensures
        ({
            let spot = last.sum(cur.difference(last).quotient(d).product(t));
            &&& spot.is_finite()
            &&& within(
                value(spot),
                value(last) + (value(cur) - value(last)) * (value(t) / value(d)),
                parts(32real * m),
            )
        }),
{
    let (a, b, dist, tv) = (value(last), value(cur), value(d), value(t));
    lemma_unit();
    lemma2_to64();
    lemma2_to64_rest();
    let least_d = Scalar { bits: LEAST_EXTENT };
    lemma_pattern(least_d, 33, 0x83_126f, 0x2_0000_0000);
    law_order_of_values(least_d, d);
    assert(dist * 0x800real > 1real);
    let seg = cur.difference(last);
    let x = b - a;
    law_difference(cur, last);
    let s = value(seg);
    assert(within(s, x, parts(3real * m)));
    assert(size(s) <= 3real * dist);
    let z = s / dist;
    assert(z * dist == s) by (nonlinear_arith)
        requires
            z == s / dist,
            dist > 0real,
    ;
    assert(-3real <= z <= 3real) by (nonlinear_arith)
        requires
            z * dist == s,
            dist > 0real,
            -(3real * dist) <= s <= 3real * dist,
    ;
    law_quotient(seg, d);
    let q = value(seg.quotient(d));
    assert(within(q, z, parts(4real)));
    let w = tv / dist;
    assert(w * dist == tv) by (nonlinear_arith)
        requires
            w == tv / dist,
            dist > 0real,
    ;
    lemma_part_of_way(s, x, z, q, tv, dist, w, parts(4real), parts(3real * m));
    assert(parts(4real) * tv <= parts(16real * m));
    let goal = x * w;
    assert(size(goal) <= 2real * m) by (nonlinear_arith)
        requires
            goal == x * w,
            0real <= w <= 1real,
            -(2real * m) <= x <= 2real * m,
            size(goal) == (if goal < 0real { -goal } else { goal }),
    ;
    assert(within(q * tv, goal, parts(19real * m)));
    law_product(seg.quotient(d), t);
    let p = seg.quotient(d).product(t);
    assert(within(value(p), goal, parts(23real * m)));
    law_sum_tracks(last, p, a, goal, 0real, parts(23real * m), 3real * m, parts(32real * m));
}

/// Whether a point lies the given part of the way from one point to another, on both
/// axes, up to rounding on a canvas of up to `m` pixels.
pub open spec fn on_the_way(last: Point, cur: Point, part: real, p: Point, m: real) -> bool {
    &&& p.x.is_finite() && p.y.is_finite()
    &&& within(
        value(p.x),
        value(last.x) + (value(cur.x) - value(last.x)) * part,
        parts(32real * m),
    )
    &&& within(
        value(p.y),
        value(last.y) + (value(cur.y) - value(last.y)) * part,
        parts(32real * m),
    )
}

/// The dab of the station at the distance `t` lies the part `t / d` of the way from the
/// last position to the pointer. The one at the distance 0 is the last position, and
/// one at the whole distance is the pointer.
pub proof fn law_spots_are_on_the_way(
    last: Point,
    cur: Point,
    d: Scalar,
    ts: Seq<Scalar>,
    i: int,
    m: real,
)
    requires
        on_canvas(last, cur, d, m),
        0 <= i < ts.len(),
        ts[i].is_finite(),
        0real <= value(ts[i]) <= value(d),
    ensures
        ({
            let p = spots(last, cur.spec_minus(last), d, ts)[i];
            &&& on_the_way(last, cur, value(ts[i]) / value(d), p, m)
            &&& value(ts[i]) == 0real ==> value(p.x) == value(last.x) && value(p.y) == value(
                last.y,
            )
            &&& value(ts[i]) == value(d) ==> within(value(p.x), value(cur.x), parts(32real * m))
                && within(value(p.y), value(cur.y), parts(32real * m))
        }),
{
    lemma_axis_spot(last.x, cur.x, d, ts[i], m);
    lemma_axis_spot(last.y, cur.y, d, ts[i], m);
    lemma_axis_ends(last.x, cur.x, d, ts[i], m);
    lemma_axis_ends(last.y, cur.y, d, ts[i], m);
}

proof fn lemma_axis_ends(last: Scalar, cur: Scalar, d: Scalar, t: Scalar, m: real)
    requires
        1real <= m <= 0x4_0000real,
        last.is_finite() && cur.is_finite() && d.is_finite() && t.is_finite(),
        far_enough(d),
        size(value(last)) <= m,
        size(value(cur)) <= m,
        size(value(cur) - value(last)) <= 2real * value(d),
    ensures
        ({
            let spot = last.sum(cur.difference(last).quotient(d).product(t));
            &&& value(t) == 0real ==> value(spot) == value(last)
            &&& value(t) == value(d) ==> (value(cur) - value(last)) * (value(t) / value(d))
                == value(cur) - value(last)
        }),
{
    let (zero, dist) = (Scalar { bits: 0 }, value(d));
    lemma_constants();
    lemma_unit();
    lemma2_to64();
    lemma2_to64_rest();
    let least_d = Scalar { bits: LEAST_EXTENT };
    lemma_pattern(least_d, 33, 0x83_126f, 0x2_0000_0000);
    law_order_of_values(least_d, d);
    let seg = cur.difference(last);
    law_difference(cur, last);
    let (s, x) = (value(seg), value(cur) - value(last));
    assert(size(s) <= 3real * dist);
    let z = s / dist;
    assert(-3real <= z <= 3real) by (nonlinear_arith)
        requires
            z == s / dist,
            dist > 0real,
            -(3real * dist) <= s <= 3real * dist,
    ;
    law_quotient(seg, d);
    let q = seg.quotient(d);
    if value(t) == 0real {
        assert(value(q) * value(t) == 0real) by (nonlinear_arith)
            requires
                value(t) == 0real,
        ;
        law_product_is_exact(q, t, zero);
        law_sum_is_exact(last, q.product(t), last);
    }
    if value(t) == dist {
        let w = value(t) / dist;
        assert(w == 1real) by (nonlinear_arith)
            requires
                w == dist / dist,
                dist > 0real,
        ;
        assert(x * w == x) by (nonlinear_arith)
            requires
                w == 1real,
        ;
    }
}

/// A point with its axes exchanged.
pub open spec fn exchanged(p: Point) -> Point {
    Point { x: p.y, y: p.x }
}

/// Neither axis is special: a way with its axes exchanged has the dabs with theirs
/// exchanged.
pub proof fn law_axes_are_alike(last: Point, seg: Point, d: Scalar, ts: Seq<Scalar>)
    ensures
        spots(exchanged(last), exchanged(seg), d, ts) == spots(last, seg, d, ts).map_values(
            |p: Point| exchanged(p),
        ),
{
    assert(spots(exchanged(last), exchanged(seg), d, ts) =~= spots(last, seg, d, ts).map_values(
        |p: Point| exchanged(p),
    ));
}

/// Whether a dab lies the part of the way that its station has of the distance.
pub open spec fn has_its_part(
    last: Point,
    cur: Point,
    d: Scalar,
    at: Scalar,
    dab: Point,
    m: real,
) -> bool {
    0real <= value(at) <= value(d) && on_the_way(last, cur, value(at) / value(d), dab, m)
}

/// Whether the dab of each station lies the part of the way that the station has of the
/// distance.
pub open spec fn all_on_the_way(
    last: Point,
    cur: Point,
    d: Scalar,
    ts: Seq<Scalar>,
    dabs: Seq<Point>,
    m: real,
) -> bool {
    forall|i: int|
        0 <= i < dabs.len() ==> #[trigger] has_its_part(last, cur, d, ts[i], dabs[i], m)
}

/// Every dab of a stroke that goes on lies between the last position and the pointer,
/// at the part of the way that its station has of the distance.
pub proof fn law_dabs_lie_on_the_way<L: Fn(Point) -> Scalar>(
    s: Stroke,
    last: Point,
    cur: Point,
    brush: Brush,
    mode: StrokeMode,
    length: L,
    after: Stroke,
    t: Touch,
    m: real,
)
    requires
        s.last == Some(last),
        s.advances(cur, brush, mode, length, after, t),
        (Scalar { bits: 0 }).at_most(s.residual),
        forall|d: Scalar| #[trigger]
            call_ensures(length, (cur.spec_minus(last),), d) && far_enough(d) ==> on_canvas(
                last,
                cur,
                d,
                m,
            ),
    ensures
        exists|d: Scalar| #[trigger]
            call_ensures(length, (cur.spec_minus(last),), d) && all_on_the_way(
                last,
                cur,
                d,
                stations(s.residual, d, brush.spec_spacing()),
                t.spots@,
                m,
            ),
{
    let seg = cur.spec_minus(last);
    let step = brush.spec_spacing();
    let d = choose|d: Scalar| #[trigger]
        call_ensures(length, (seg,), d) && if far_enough(d) {
            &&& after == s.moved(cur, d, brush)
            &&& t.spots@ == spots(last, seg, d, stations(s.residual, d, step))
            &&& t.size_scale == mode_scale(brush, mode, d)
        } else {
            &&& after == s
            &&& t.spots@.len() == 0
        };
    if far_enough(d) {
        let ts = stations(s.residual, d, step);
        law_stations_are_in_order(s.residual, d, step);
        assert forall|i: int| 0 <= i < t.spots@.len() implies #[trigger] has_its_part(
            last,
            cur,
            d,
            ts[i],
            t.spots@[i],
            m,
        ) by {
            lemma_constants();
            assert(s.residual.at_most(ts[i]) && ts[i].at_most(d));
            law_order_of_values(Scalar { bits: 0 }, ts[i]);
            law_order_of_values(ts[i], d);
            law_spots_are_on_the_way(last, cur, d, ts, i, m);
        }
    }
    assert(all_on_the_way(last, cur, d, stations(s.residual, d, step), t.spots@, m));
}

/// Dabs are a step apart, the first of them where the stroke has run up to; the walk
/// goes on until a step leads past the goal, and ends there.
pub proof fn law_dabs_are_a_step_apart(t: Scalar, d: Scalar, step: Scalar)
    requires
        t.at_most(d),
    ensures
        ({
            let ts = stations(t, d, step);
            &&& ts.len() > 0 && ts[0] == t
            &&& forall|i: int| 0 <= i < ts.len() - 1 ==> #[trigger] ts[i + 1] == ts[i].sum(step)
            &&& walk_end(t, d, step) == ts.last().sum(step)
            &&& walk_end(t, d, step).at_most(d) ==> !ts.last().less(walk_end(t, d, step))
        }),
    decreases 0x8000_0000 - t.key(),
{
    let next = t.sum(step);
    let ts = stations(t, d, step);
    if t.less(next) {
        let rest = stations(next, d, step);
        if next.at_most(d) {
            law_dabs_are_a_step_apart(next, d, step);
            assert forall|i: int| 0 <= i < ts.len() - 1 implies #[trigger] ts[i + 1]
                == ts[i].sum(step) by {
                assert(ts[i + 1] == rest[i]);
                if i > 0 {
                    assert(ts[i] == rest[i - 1]);
                    assert(rest[(i - 1) + 1] == rest[i - 1].sum(step));
                }
            }
            assert(ts.last() == rest.last());
        } else {
            assert(rest.len() == 0);
            assert(ts =~= seq![t]);
            assert(walk_end(next, d, step) == next);
        }
        assert(walk_end(t, d, step) == walk_end(next, d, step));
    }
}

/// Whether a brush's settings are numbers that its controls allow.
pub open spec fn is_usable(b: Brush) -> bool {
    &&& b.size.is_finite() && 0real <= value(b.size) <= 0x1000real
    &&& b.min_size_scale.is_finite() && 0real <= value(b.min_size_scale) <= 1real
    &&& b.hardness.is_finite()
}

/// Dabs are fifteen hundredths of the brush's size apart, but never less than three
/// quarters of a pixel, and reach a pixel farther than half of its size.
pub proof fn law_spacing_follows_the_size(b: Brush)
    requires
        is_usable(b),
    ensures
        b.spec_spacing().is_finite() && b.spec_reach().is_finite(),
        ({
            let (s, x) = (value(b.spec_spacing()), (15real / 100real) * value(b.size));
            &&& 4real * s >= 3real
            &&& within(s, if 4real * x >= 3real { x } else { 3real / 4real }, 1real / 1024real)
        }),
        within(value(b.spec_reach()), value(b.size) / 2real + 1real, 1real / 1024real),
{
    let (k, least_s, half) = (
        Scalar { bits: SPACING },
        Scalar { bits: THREE_QUARTERS },
        Scalar { bits: HALF },
    );
    lemma_constants();
    lemma2_to64();
    lemma_pattern(k, 26, 0x99_999a, 0x400_0000);
    lemma_pattern(least_s, 24, 0xc0_0000, 0x100_0000);
    let x = value(b.size);
    law_product_tracks(
        b.size,
        k,
        x,
        15real / 100real,
        0real,
        parts(1real),
        0x1000real,
        15real / 100real,
        parts(0x1000real),
        0x400real,
        parts(0x1401real),
    );
    law_order_of_values(b.size.product(k), least_s);
    law_product_tracks(
        b.size,
        half,
        x,
        1real / 2real,
        0real,
        0real,
        0x1000real,
        1real / 2real,
        0real,
        0x800real,
        parts(0x801real),
    );
    law_sum_tracks(
        b.size.product(half),
        Scalar { bits: ONE },
        x * (1real / 2real),
        1real,
        parts(0x801real),
        0real,
        0x801real,
        parts(0x1003real),
    );
}

/// A dab is about the pointer and as wide as the brush, times the scale; half a pixel is
/// its least radius, and it is never all hard.
pub proof fn law_dab_is_as_wide_as_the_brush<F: Fn(Scalar) -> Scalar>(
    b: Brush,
    linear: F,
    pos: Point,
    alpha: Scalar,
    scale: Scalar,
    d: Dab,
)
    requires
        is_usable(b),
        scale.is_finite() && 0real <= value(scale) <= 1real,
        b.dabs(linear, pos, alpha, scale, d),
    ensures
        d.center == pos && d.color@[3] == alpha,
        d.radius.is_finite(),
        2real * value(d.radius) >= 1real,
        ({
            let w = value(b.size) * value(scale);
            within(
                2real * value(d.radius),
                if w >= 1real {
                    w
                } else {
                    1real
                },
                1real / 1024real,
            )
        }),
        d.hardness.is_finite() && 0real <= value(d.hardness) < 1real,
        value(b.hardness) <= 98real / 100real && value(b.hardness) >= 0real ==> d.hardness
            == b.hardness,
{
    let half = Scalar { bits: HALF };
    lemma_constants();
    lemma2_to64();
    lemma_pattern(Scalar { bits: HARDEST }, 24, 0xfd_70a4, 0x100_0000);
    let (x, s) = (value(b.size), value(scale));
    law_product_tracks(
        b.size,
        half,
        x,
        1real / 2real,
        0real,
        0real,
        0x1000real,
        1real / 2real,
        0real,
        0x800real,
        parts(0x801real),
    );
    let y = x * (1real / 2real);
    law_product_tracks(
        b.size.product(half),
        scale,
        y,
        s,
        parts(0x801real),
        0real,
        0x800real,
        1real,
        parts(0x801real),
        0x800real,
        parts(0x1003real),
    );
    law_order_of_values(b.size.product(half).product(scale), half);
    assert(2real * (y * s) == x * s) by (nonlinear_arith)
        requires
            y == x * (1real / 2real),
    ;
    law_order_of_values(b.hardness, Scalar { bits: 0 });
    law_order_of_values(Scalar { bits: HARDEST }, b.hardness);
}

/// A stroke gets thinner the faster it is drawn, evenly from its full size at rest to the
/// brush's least scale at full speed, and no thinner than that; without speed dynamics
/// it keeps its size.
pub proof fn law_faster_strokes_are_thinner(b: Brush, d: Scalar, dt: Scalar)
    requires
        is_usable(b),
        d.is_finite() && dt.is_finite(),
        0real <= value(d) <= 0x10_0000real,
        1real <= 0x1_0000real * value(dt),
        value(dt) <= 0x1_0000real,
    ensures
        ({
            let r = b.spec_size_scale(d, dt);
            let speed = held((value(d) / value(dt)) / 2500real);
            &&& r.is_finite()
            &&& !b.speed_dynamics ==> value(r) == 1real
            &&& b.speed_dynamics ==> within(
                value(r),
                1real - speed * (1real - value(b.min_size_scale)),
                1real / 1024real,
            )
        }),
{
    let one = Scalar { bits: ONE };
    let full = Scalar { bits: FULL_SPEED };
    lemma_constants();
    lemma_unit();
    lemma2_to64();
    lemma_pattern(full, 12, 0x9c_4000, 0x1000);
    if b.speed_dynamics {
        let (dv, tv) = (value(d), value(dt));
        let z = dv / tv;
        assert(0real <= z <= 0x10_0000_0000real) by (nonlinear_arith)
            requires
                z == dv / tv,
                0real <= dv <= 0x10_0000real,
                1real <= 0x1_0000real * tv,
        ;
        law_quotient(d, dt);
        let q = d.quotient(dt);
        law_quotient(q, full);
        let v = q.quotient(full);
        lemma_speed(value(v), value(q), z);
        law_limit_tracks(v, value(v), 0real);
        let u = v.limited(Scalar { bits: 0 }, one);
        let (speed, least_r) = (held(z / 2500real), value(b.min_size_scale));
        assert(within(value(u), speed, parts(16real)));
        law_difference_tracks(
            one,
            b.min_size_scale,
            1real,
            least_r,
            0real,
            0real,
            1real,
            parts(2real),
        );
        let rest = one.difference(b.min_size_scale);
        law_product_tracks(
            u,
            rest,
            speed,
            1real - least_r,
            parts(16real),
            parts(2real),
            1real,
            1real,
            parts(20real),
            1real,
            parts(24real),
        );
        law_difference_tracks(
            one,
            u.product(rest),
            1real,
            speed * (1real - least_r),
            0real,
            parts(24real),
            2real,
            parts(32real),
        );
    }
}

/// The speed's part of full speed, limited to 1: rounding shows only where it is small.
proof fn lemma_speed(v: real, q: real, z: real)
    requires
        0real <= z,
        close(q, z),
        close(v, q / 2500real),
    ensures
        within(held(v), held(z / 2500real), parts(16real)),
{
    lemma_unit();
}

/// Marks of a retouch are the given part of the radius apart, and never less than a pixel.
pub proof fn law_marks_follow_the_radius(r: Scalar, k: u32)
    requires
        r.is_finite() && 0real <= value(r) <= 0x1000real,
        k == HALF || k == QUARTER,
    ensures
        ({
            let s = mark_step(r, k);
            let part = if k == HALF {
                1real / 2real
            } else {
                1real / 4real
            };
            let x = value(r) * part;
            &&& s.is_finite() && value(s) >= 1real
            &&& within(value(s), if x >= 1real { x } else { 1real }, 1real / 1024real)
        }),
{
    lemma_constants();
    lemma2_to64();
    lemma_pattern(Scalar { bits: QUARTER }, 25, 0x80_0000, 0x200_0000);
    let (f, x) = (Scalar { bits: k }, value(r));
    law_product_tracks(
        r,
        f,
        x,
        value(f),
        0real,
        0real,
        0x1000real,
        1real / 2real,
        0real,
        0x800real,
        parts(0x801real),
    );
    law_order_of_values(r.product(f), Scalar { bits: ONE });
}

/// A retouch that goes on marks the whole way: it starts where the pointer was, goes on
/// along the way, and ends where the pointer is.
pub proof fn law_retouch_marks_the_whole_way<L: Fn(Point) -> Scalar>(
    length: L,
    last: Point,
    cur: Point,
    step: Scalar,
    marks: Seq<Point>,
    m: real,
)
    requires
        retouched(length, Some(last), cur, step, marks),
        forall|d: Scalar| #[trigger]
            call_ensures(length, (cur.spec_minus(last),), d) && far_enough(d) ==> on_canvas(
                last,
                cur,
                d,
                m,
            ),
    ensures
        marks.len() != 1,
        marks.len() > 0 ==> {
            &&& marks.last() == cur
            &&& value(marks[0].x) == value(last.x) && value(marks[0].y) == value(last.y)
            &&& exists|d: Scalar| #[trigger]
                call_ensures(length, (cur.spec_minus(last),), d) && all_on_the_way(
                    last,
                    cur,
                    d,
                    stations(Scalar { bits: 0 }, d, step),
                    marks.drop_last(),
                    m,
                )
        },
{
    let zero = Scalar { bits: 0 };
    let seg = cur.spec_minus(last);
    let d = choose|d: Scalar| #[trigger]
        call_ensures(length, (seg,), d) && marks == (if far_enough(d) {
            spots(last, seg, d, stations(zero, d, step)).push(cur)
        } else {
            Seq::empty()
        });
    if far_enough(d) {
        let ts = stations(zero, d, step);
        let dabs = spots(last, seg, d, ts);
        lemma_constants();
        assert(zero.at_most(d));
        law_dabs_are_a_step_apart(zero, d, step);
        law_stations_are_in_order(zero, d, step);
        assert(marks.drop_last() =~= dabs);
        assert forall|i: int| 0 <= i < dabs.len() implies #[trigger] has_its_part(
            last,
            cur,
            d,
            ts[i],
            dabs[i],
            m,
        ) by {
            assert(zero.at_most(ts[i]) && ts[i].at_most(d));
            law_order_of_values(zero, ts[i]);
            law_order_of_values(ts[i], d);
            law_spots_are_on_the_way(last, cur, d, ts, i, m);
        }
        law_order_of_values(zero, d);
        law_spots_are_on_the_way(last, cur, d, ts, 0, m);
        assert(marks[0] == dabs[0]);
        assert(all_on_the_way(last, cur, d, ts, marks.drop_last(), m));
    }
}

} // verus!
