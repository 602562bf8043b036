//! The tools and what they do with the pointer: marquees, lassos, the patch, and
//! moving a layer.
//!
//! The length of a distance is left to the caller.

use crate::arith::signed;
use crate::exact::{
    half_whole, law_difference_tracks, law_order_of_values, law_product_tracks, law_quotient,
    law_quotient_stays_within, law_sum, law_sum_is_exact, law_whole, lemma_constants,
    lemma_half_whole, lemma_negation, lemma_pattern, lemma_real_product, lemma_unit, parts, size,
    value, within,
};
use crate::geometry::{Point, HALF, LEAST_EXTENT, ONE};
use crate::grid::{grid_fits, lemma_position, pixel_count};
use crate::mask::{translate_mask, translated, whole_pixels};
use crate::scalar::Scalar;
use vstd::arithmetic::mul::*;
use vstd::arithmetic::power2::*;
use vstd::prelude::*;

verus! {

/// 2, how far apart the points of a lasso are at least.
pub const LASSO_STEP: u32 = 0x4000_0000;

/// 0.005, 0.05 and 20: the change of scale per point dragged, and its limits.
pub const SCALE_RATE: u32 = 0x3ba3_d70a;

pub const LEAST_SCALE: u32 = 0x3d4c_cccd;

pub const LARGEST_SCALE: u32 = 0x41a0_0000;

#[derive(Clone, Copy, PartialEq, Eq, Structural, Debug)]
pub enum Tool {
    Move,
    MoveLayer,
    Brush,
    Eraser,
    Clone,
    Heal,
    SpotHeal,
    ContentFill,
    Patch,
    Dodge,
    Liquify,
    Detail,
    Fill,
    Eyedropper,
    SelectRect,
    SelectEllipse,
    Lasso,
    MagicWand,
    Transform,
    Crop,
    Text,
    Pen,
    DirectSelect,
    ShapeRect,
    ShapeEllipse,
    Gradient,
}

/// How a new selection is combined with the one before.
#[derive(Clone, Copy, PartialEq, Eq, Structural, Debug)]
pub enum CombineMode {
    Replace,
    Add,
    Subtract,
    Intersect,
}

/// An operation on the whole selection.
#[derive(Clone, Copy, PartialEq, Eq, Structural, Debug)]
pub enum SelectionOp {
    All,
    Deselect,
    Invert,
}

/// Shift adds, Alt subtracts, both intersect.
pub fn mode_from_modifiers(shift: bool, alt: bool) -> (r: CombineMode)
    ensures
        r == (if shift && alt {
            CombineMode::Intersect
        } else if shift {
            CombineMode::Add
        } else if alt {
            CombineMode::Subtract
        } else {
            CombineMode::Replace
        }),
{
    match (shift, alt) {
        (true, false) => CombineMode::Add,
        (false, true) => CombineMode::Subtract,
        (true, true) => CombineMode::Intersect,
        (false, false) => CombineMode::Replace,
    }
}

impl Tool {
    /// The tools that have brush settings.
    pub fn brushy(&self) -> (r: bool)
        ensures
            r == (*self is Brush || *self is Eraser || *self is Clone || *self is Heal
                || *self is SpotHeal || *self is ContentFill || *self is Dodge || *self is Detail
                || *self is Liquify),
    {
        match self {
            Tool::Brush
            | Tool::Eraser
            | Tool::Clone
            | Tool::Heal
            | Tool::SpotHeal
            | Tool::ContentFill
            | Tool::Dodge
            | Tool::Detail
            | Tool::Liquify => true,
            _ => false,
        }
    }

    /// The name of the undo step that a stroke with this tool makes.
    pub fn command_label(&self) -> (r: &'static str)
        ensures
            r@ == match *self {
                Tool::Eraser => "Erase"@,
                Tool::MoveLayer => "Move"@,
                Tool::Transform => "Transform"@,
                Tool::Clone => "Clone Stamp"@,
                _ => "Brush"@,
            },
    {
        match self {
            Tool::Eraser => "Erase",
            Tool::MoveLayer => "Move",
            Tool::Transform => "Transform",
            Tool::Clone => "Clone Stamp",
            _ => "Brush",
        }
    }
}

/// The name of the undo step that dodging or burning makes.
pub fn tone_label(burn: bool) -> (r: &'static str)
    ensures
        r@ == (if burn {
            "Burn"@
        } else {
            "Dodge"@
        }),
{
    if burn {
        "Burn"
    } else {
        "Dodge"
    }
}

/// The name of the undo step that a detail brush makes.
pub fn detail_label(mode: u8) -> (r: &'static str)
    ensures
        r@ == (if mode == 0 {
            "Saturate"@
        } else if mode == 1 {
            "Desaturate"@
        } else if mode == 2 {
            "Blur"@
        } else {
            "Sharpen"@
        }),
{
    match mode {
        0 => "Saturate",
        1 => "Desaturate",
        2 => "Blur",
        _ => "Sharpen",
    }
}

/// Coverage with every sign turned, for the brushes that take away.
pub fn negated(cover: &Vec<Scalar>) -> (r: Vec<Scalar>)
    ensures
        r@ == cover@.map_values(|c: Scalar| c.negation()),
{
    let mut r: Vec<Scalar> = Vec::new();
    let mut i: usize = 0;
    while i < cover.len()
        invariant
            i <= cover@.len(),
            r@.len() == i,
            forall|j: int| 0 <= j < i ==> #[trigger] r@[j] == cover@[j].negation(),
        decreases cover@.len() - i,
    {
        r.push(cover[i].neg());
        i = i + 1;
    }
    assert(r@ =~= cover@.map_values(|c: Scalar| c.negation()));
    r
}

/// The distance from `a` to `b` along an axis.
pub open spec fn apart(a: Scalar, b: Scalar) -> Scalar {
    signed(false, a.difference(b).magnitude())
}

/// The box that is dragged open between two points: left, top, width, height.
pub open spec fn marquee_box(start: Point, cur: Point) -> Seq<Scalar> {
    seq![
        start.x.lesser(cur.x),
        start.y.lesser(cur.y),
        apart(start.x, cur.x),
        apart(start.y, cur.y),
    ]
}

/// The box that is dragged open between two points: left, top, width, height.
pub fn marquee_rect(start: Point, cur: Point) -> (r: [Scalar; 4])
    ensures
        r@ == marquee_box(start, cur),
{
    [
        start.x.min(cur.x),
        start.y.min(cur.y),
        start.x.minus(cur.x).abs(),
        start.y.minus(cur.y).abs(),
    ]
}

/// A freehand outline in progress.
pub struct Lasso {
    pub points: Vec<Point>,
}

impl Lasso {
    pub fn new() -> (r: Lasso)
        ensures
            r.points@.len() == 0,
    {
        Lasso { points: Vec::new() }
    }

    /// Begin an outline, at the pointer if it is there.
    pub fn start(&mut self, at: Option<Point>)
        ensures
            final(self).points@ == (match at {
                Some(p) => seq![p],
                None => Seq::<Point>::empty(),
            }),
    {
        self.points.clear();
        if let Some(p) = at {
            self.points.push(p);
        }
        assert(self.points@ =~= (match at {
            Some(p) => seq![p],
            None => Seq::<Point>::empty(),
        }));
    }

    /// Draw on to the pointer, unless it has hardly moved.
    pub fn drag<L: Fn(Point) -> Scalar>(&mut self, p: Point, length: &L)
        requires
            forall|q: Point| #[trigger] call_requires(*length, (q,)),
        ensures
            if old(self).points@.len() == 0 {
                final(self).points@ == seq![p]
            } else {
                exists|d: Scalar| #[trigger]
                    call_ensures(*length, (old(self).points@.last().spec_minus(p),), d)
                        && final(self).points@ == (if (Scalar { bits: LASSO_STEP }).less(d) {
                        old(self).points@.push(p)
                    } else {
                        old(self).points@
                    })
            },
    {
        let n: usize = self.points.len();
        if n == 0 {
            self.points.push(p);
            assert(self.points@ =~= seq![p]);
            return;
        }
        let d: Scalar = length(self.points[n - 1].minus(p));
        assert(call_ensures(*length, (old(self).points@.last().spec_minus(p),), d));
        if d.gt(Scalar { bits: LASSO_STEP }) {
            self.points.push(p);
        }
    }

    /// Close the outline. It takes three points to enclose anything.
    pub fn stop(&mut self) -> (r: Option<Vec<Point>>)
        ensures
            final(self).points@.len() == 0,
            match r {
                Some(v) => old(self).points@.len() >= 3 && v@ == old(self).points@,
                None => old(self).points@.len() < 3,
            },
    {
        let mut taken: Vec<Point> = Vec::new();
        taken.append(&mut self.points);
        assert(taken@ =~= old(self).points@);
        if taken.len() >= 3 {
            Some(taken)
        } else {
            None
        }
    }
}

/// A move or a transformation of the active layer in progress.
#[derive(Clone, Copy, PartialEq, Eq, Structural, Debug)]
pub struct Xform {
    pub active: bool,
    /// Document pixels.
    pub translate: Point,
    pub scale: Scalar,
}

impl Default for Xform {
    fn default() -> (r: Xform)
        ensures
            r == (Xform {
                active: false,
                translate: Point { x: Scalar { bits: 0 }, y: Scalar { bits: 0 } },
                scale: Scalar { bits: ONE },
            }),
    {
        Xform { active: false, translate: Point::zero(), scale: Scalar { bits: ONE } }
    }
}

impl Xform {
    /// The transformation as a drag begins.
    pub open spec fn started(self, started: bool) -> Xform {
        if started {
            Xform {
                active: true,
                translate: Point { x: Scalar { bits: 0 }, y: Scalar { bits: 0 } },
                scale: Scalar { bits: ONE },
            }
        } else {
            self
        }
    }

    /// The transformation after a drag by `delta` screen points.
    pub open spec fn dragged(self, delta: Option<Point>, scaling: bool, zoom: Scalar) -> Xform {
        match delta {
            None => self,
            Some(d) => if scaling {
                let one = Scalar { bits: ONE };
                Xform {
                    scale: self.scale.product(
                        one.difference(d.y.product(Scalar { bits: SCALE_RATE })),
                    ).limited(Scalar { bits: LEAST_SCALE }, Scalar { bits: LARGEST_SCALE }),
                    ..self
                }
            } else {
                let z = zoom.greater(Scalar { bits: LEAST_EXTENT });
                Xform {
                    translate: self.translate.spec_plus(
                        Point { x: d.x.quotient(z), y: d.y.quotient(z) },
                    ),
                    ..self
                }
            },
        }
    }

    /// One frame of the tool: whether an undo step begins, and whether the
    /// transformation is baked into the layer.
    pub fn frame(
        &mut self,
        started: bool,
        delta: Option<Point>,
        stopped: bool,
        scaling: bool,
        zoom: Scalar,
    ) -> (r: (bool, bool))
        ensures
            ({
                let now = old(self).started(started).dragged(delta, scaling, zoom);
                &&& r.0 == started
                &&& r.1 == (stopped && now.active)
                &&& *final(self) == (Xform { active: now.active && !stopped, ..now })
            }),
    {
        if started {
            self.active = true;
            self.translate = Point::zero();
            self.scale = Scalar { bits: ONE };
        }
        if let Some(d) = delta {
            if scaling {
                let one: Scalar = Scalar { bits: ONE };
                self.scale =
                self.scale.times(one.minus(d.y.times(Scalar { bits: SCALE_RATE }))).clamp(
                    Scalar { bits: LEAST_SCALE },
                    Scalar { bits: LARGEST_SCALE },
                );
            } else {
                let z: Scalar = zoom.max(Scalar { bits: LEAST_EXTENT });
                self.translate = self.translate.plus(d.divided(z));
            }
        }
        let bake: bool = stopped && self.active;
        if bake {
            self.active = false;
        }
        (started, bake)
    }
}

/// The layer's affine is sent in every frame of a drag, the one that bakes it
/// among them, and in no other.
pub proof fn law_affine_is_sent_while_dragged(
    x: Xform,
    started: bool,
    delta: Option<Point>,
    stopped: bool,
    scaling: bool,
    zoom: Scalar,
)
    ensures
        ({
            let now = x.started(started).dragged(delta, scaling, zoom);
            let (active, bake) = (now.active && !stopped, stopped && now.active);
            (active || bake) == (x.active || started)
        }),
{
}

/// The sums of the columns and of the rows of the pixels before `n` in a region,
/// each taken at its middle, and their number.
pub open spec fn region_sums(region: Seq<bool>, w: int, n: int) -> (Scalar, Scalar, Scalar)
    decreases n,
{
    let zero = Scalar { bits: 0 };
    if n <= 0 {
        (zero, zero, zero)
    } else {
        let (i, (sx, sy, c)) = (n - 1, region_sums(region, w, n - 1));
        let half = Scalar { bits: HALF };
        if region[i] {
            (
                sx.sum(Scalar::whole(i % w).sum(half)),
                sy.sum(Scalar::whole(i / w).sum(half)),
                c.sum(Scalar { bits: ONE }),
            )
        } else {
            (sx, sy, c)
        }
    }
}

/// The middle of a region, if it has a pixel.
pub fn centroid(region: &Vec<bool>, w: u32, h: u32) -> (r: Option<Point>)
    requires
        region@.len() == w * h,
        grid_fits(w as int, h as int, 1),
    ensures
        ({
            let (sx, sy, c) = region_sums(region@, w as int, region@.len() as int);
            match r {
                Some(p) => (Scalar { bits: 0 }).less(c) && p.x == sx.quotient(c) && p.y
                    == sy.quotient(c),
                None => !(Scalar { bits: 0 }).less(c),
            }
        }),
{
    let half: Scalar = Scalar { bits: HALF };
    let (mut sx, mut sy, mut c): (Scalar, Scalar, Scalar) = (
        Scalar::zero(),
        Scalar::zero(),
        Scalar::zero(),
    );
    let n: usize = region.len();
    let mut i: usize = 0;
    while i < n
        invariant
            n == region@.len(),
            n == w * h,
            n <= u32::MAX,
            i <= n,
            half == (Scalar { bits: HALF }),
            (sx, sy, c) == region_sums(region@, w as int, i as int),
        decreases n - i,
    {
        proof {
            lemma_position(w as int, h as int, i as int);
        }
        if region[i] {
            sx = sx.plus(Scalar::from_u32((i % w as usize) as u32).plus(half));
            sy = sy.plus(Scalar::from_u32((i / w as usize) as u32).plus(half));
            c = c.plus(Scalar { bits: ONE });
        }
        i = i + 1;
    }
    if c.gt(Scalar::zero()) {
        Some(Point { x: sx.over(c), y: sy.over(c) })
    } else {
        None
    }
}

/// Whether a region has a pixel.
pub fn any_marked(region: &Vec<bool>) -> (r: bool)
    ensures
        r == region@.contains(true),
{
    let mut i: usize = 0;
    while i < region.len()
        invariant
            i <= region@.len(),
            forall|j: int| 0 <= j < i ==> !#[trigger] region@[j],
        decreases region@.len() - i,
    {
        if region[i] {
            assert(region@[i as int] == true);
            return true;
        }
        i = i + 1;
    }
    false
}

/// The patch tool: a region is outlined first, and then dragged.
pub struct Patch {
    pub outline: Lasso,
    /// The region, empty while none is outlined.
    pub region: Vec<bool>,
    /// The region's middle, by which it is dragged.
    pub anchor: Option<Point>,
    /// Where the drag began.
    pub from: Option<Point>,
    pub offset: Point,
    /// The region is dragged onto the texture it takes; otherwise it is dragged
    /// onto the place it is put.
    pub source_mode: bool,
}

/// What a patch does: the region that takes texture, and the offset to where the
/// texture is.
pub struct PatchPlan {
    pub region: Vec<bool>,
    pub offset: [Scalar; 2],
}

impl Patch {
    pub fn new() -> (r: Patch)
        ensures
            r.outline.points@.len() == 0,
            r.region@.len() == 0,
            r.anchor is None,
            r.from is None,
            r.offset == (Point { x: Scalar { bits: 0 }, y: Scalar { bits: 0 } }),
            r.source_mode,
    {
        Patch {
            outline: Lasso::new(),
            region: Vec::new(),
            anchor: None,
            from: None,
            offset: Point::zero(),
            source_mode: true,
        }
    }

    /// Whether a region is outlined.
    pub fn has_region(&self) -> (r: bool)
        ensures
            r == self.region@.contains(true),
    {
        any_marked(&self.region)
    }

    /// Take over the region that was outlined. Its middle becomes the handle.
    pub fn set_region(&mut self, region: Vec<bool>, w: u32, h: u32)
        requires
            region@.len() == w * h,
            grid_fits(w as int, h as int, 1),
        ensures
            final(self).region == region,
            ({
                let (sx, sy, c) = region_sums(region@, w as int, region@.len() as int);
                final(self).anchor == (if (Scalar { bits: 0 }).less(c) {
                    Some(Point { x: sx.quotient(c), y: sy.quotient(c) })
                } else {
                    old(self).anchor
                })
            }),
            final(self).offset == (Point { x: Scalar { bits: 0 }, y: Scalar { bits: 0 } }),
            final(self).outline == old(self).outline,
            final(self).from == old(self).from,
            final(self).source_mode == old(self).source_mode,
    {
        if let Some(p) = centroid(&region, w, h) {
            self.anchor = Some(p);
        }
        self.region = region;
        self.offset = Point::zero();
    }

    /// Forget the region, so that another can be outlined.
    pub fn clear_region(&mut self)
        ensures
            final(self).region@.len() == 0,
            final(self).anchor is None,
            final(self).outline == old(self).outline,
            final(self).from == old(self).from,
            final(self).offset == old(self).offset,
            final(self).source_mode == old(self).source_mode,
    {
        self.region.clear();
        self.anchor = None;
    }

    /// Begin to drag the region.
    pub fn start_drag(&mut self, at: Point)
        ensures
            final(self).from == Some(at),
            final(self).offset == (Point { x: Scalar { bits: 0 }, y: Scalar { bits: 0 } }),
            final(self).region == old(self).region,
            final(self).anchor == old(self).anchor,
            final(self).outline == old(self).outline,
            final(self).source_mode == old(self).source_mode,
    {
        self.from = Some(at);
        self.offset = Point::zero();
    }

    /// Drag the region on.
    pub fn drag(&mut self, cur: Point)
        ensures
            final(self).offset == (match old(self).from {
                Some(start) => cur.spec_minus(start),
                None => old(self).offset,
            }),
            final(self).from == old(self).from,
            final(self).region == old(self).region,
            final(self).anchor == old(self).anchor,
            final(self).outline == old(self).outline,
            final(self).source_mode == old(self).source_mode,
    {
        if let Some(start) = self.from {
            self.offset = cur.minus(start);
        }
    }

    /// Let the region go. A drag of a pixel or more is carried out, and uses the
    /// region up; a shorter one is not, nor one that would put down a region with
    /// fewer pixels than the canvas.
    pub fn stop_drag<L: Fn(Point) -> Scalar>(&mut self, w: u32, h: u32, length: &L) -> (r: Option<
        PatchPlan,
    >)
        requires
            grid_fits(w as int, h as int, 1),
            forall|q: Point| #[trigger] call_requires(*length, (q,)),
        ensures
            final(self).from is None,
            final(self).offset == (Point { x: Scalar { bits: 0 }, y: Scalar { bits: 0 } }),
            final(self).outline == old(self).outline,
            final(self).source_mode == old(self).source_mode,
            exists|d: Scalar| #[trigger]
                call_ensures(*length, (old(self).offset,), d) && match r {
                    Some(plan) => {
                        let o = old(self).offset;
                        &&& (Scalar { bits: ONE }).at_most(d)
                        &&& old(self).source_mode || old(self).region@.len() >= w * h
                        &&& final(self).region@.len() == 0
                        &&& final(self).anchor is None
                        &&& if old(self).source_mode {
                            &&& plan.region@ == old(self).region@
                            &&& plan.offset@ == seq![o.x.negation(), o.y.negation()]
                        } else {
                            &&& translated(
                                old(self).region@,
                                w as int,
                                h as int,
                                whole_pixels(o.x),
                                whole_pixels(o.y),
                                plan.region@,
                            )
                            &&& plan.offset@ == seq![o.x, o.y]
                        }
                    },
                    None => {
                        &&& !(Scalar { bits: ONE }).at_most(d) || (!old(self).source_mode
                            && old(self).region@.len() < w * h)
                        &&& final(self).region == old(self).region
                        &&& final(self).anchor == old(self).anchor
                    },
                },
    {
        let o: Point = self.offset;
        let d: Scalar = length(o);
        self.offset = Point::zero();
        self.from = None;
        if !d.ge(Scalar { bits: ONE }) {
            return None;
        }
        proof {
            lemma_mul_nonnegative(w as int, h as int);
        }
        if !self.source_mode && self.region.len() < pixel_count(w, h) {
            return None;
        }
        let plan: PatchPlan = if self.source_mode {
            let mut region: Vec<bool> = Vec::new();
            region.append(&mut self.region);
            assert(region@ =~= old(self).region@);
            PatchPlan { region, offset: [o.x.neg(), o.y.neg()] }
        } else {
            PatchPlan {
                region: translate_mask(self.region.as_slice(), w, h, o.x, o.y),
                offset: [o.x, o.y],
            }
        };
        self.region.clear();
        self.anchor = None;
        Some(plan)
    }
}

/// The length of a side of a dragged box.
proof fn lemma_apart(a: Scalar, b: Scalar)
    requires
        a.is_finite() && b.is_finite(),
        size(value(a)) <= 0x10_0000real && size(value(b)) <= 0x10_0000real,
    ensures
        apart(a, b).is_finite(),
        within(value(apart(a, b)), size(value(a) - value(b)), parts(0x20_0001real)),
        value(apart(a, b)) >= 0real,
        a.lesser(b).is_finite(),
        value(a.lesser(b)) == (if value(b) < value(a) {
            value(b)
        } else {
            value(a)
        }),
{
    law_difference_tracks(
        a,
        b,
        value(a),
        value(b),
        0real,
        0real,
        0x20_0000real,
        parts(0x20_0001real),
    );
    law_order_of_values(b, a);
    let d = a.difference(b);
    lemma_negation(d);
    lemma_constants();
    law_order_of_values(apart(a, b), Scalar { bits: 0 });
    law_order_of_values(Scalar { bits: 0 }, d);
    assert(apart(a, b) == d || apart(a, b) == d.negation());
}

/// A box that is dragged open has its two points as opposite corners, whichever way it was
/// dragged: it begins at the lesser of the two on each axis, and ends at the larger.
pub proof fn law_marquee_has_both_corners(start: Point, cur: Point)
    requires
        start.x.is_finite() && start.y.is_finite() && cur.x.is_finite() && cur.y.is_finite(),
        size(value(start.x)) <= 0x10_0000real && size(value(start.y)) <= 0x10_0000real,
        size(value(cur.x)) <= 0x10_0000real && size(value(cur.y)) <= 0x10_0000real,
    ensures
        ({
            let b = marquee_box(start, cur);
            let (left, top) = (value(b[0]), value(b[1]));
            let (x, y) = (left + value(b[2]), top + value(b[3]));
            let slack = parts(0x20_0001real);
            &&& b.len() == 4
            &&& value(b[2]) >= 0real && value(b[3]) >= 0real
            &&& left <= value(start.x) && left <= value(cur.x)
            &&& top <= value(start.y) && top <= value(cur.y)
            &&& (left == value(start.x) && within(x, value(cur.x), slack)) || (left == value(cur.x)
                && within(x, value(start.x), slack))
            &&& (top == value(start.y) && within(y, value(cur.y), slack)) || (top == value(cur.y)
                && within(y, value(start.y), slack))
        }),
{
    lemma_apart(start.x, cur.x);
    lemma_apart(start.y, cur.y);
}

/// A step of a drag, in document pixels.
proof fn lemma_step_in_document(d: Scalar, zoom: Scalar, at: Scalar)
    requires
        d.is_finite() && zoom.is_finite() && at.is_finite(),
        size(value(d)) <= 0x4000real,
        1real <= 0x40real * value(zoom),
        value(zoom) <= 0x40real,
        size(value(at)) <= 0x4_0000real,
    ensures
        ({
            let z = zoom.greater(Scalar { bits: LEAST_EXTENT });
            let r = at.sum(d.quotient(z));
            &&& r.is_finite()
            &&& within(value(r), value(at) + value(d) / value(zoom), 1real / 4real)
            &&& size(value(at)) <= 0x1000real && size(value(d)) <= 0x100real ==> within(
                value(r),
                value(at) + value(d) / value(zoom),
                1real / 256real,
            )
        }),
{
    lemma2_to64();
    lemma2_to64_rest();
    lemma_unit();
    let least_z = Scalar { bits: LEAST_EXTENT };
    lemma_pattern(least_z, 33, 0x83_126f, 0x2_0000_0000);
    law_order_of_values(zoom, least_z);
    let (dv, zv, a) = (value(d), value(zoom), value(at));
    let q = dv / zv;
    assert(q * zv == dv) by (nonlinear_arith)
        requires
            q == dv / zv,
            0x40real * zv >= 1real,
    ;
    let m = size(dv);
    assert(-(0x40real * m) <= q <= 0x40real * m) by (nonlinear_arith)
        requires
            q * zv == dv,
            0x40real * zv >= 1real,
            -m <= dv <= m,
    ;
    law_quotient(d, zoom);
    law_sum(at, d.quotient(zoom));
}

/// Dragging a layer moves it by as many document pixels as the pointer has moved over, at
/// the zoom it is shown with, on both axes and without scaling it.
pub proof fn law_drag_moves_with_the_pointer(x: Xform, d: Point, zoom: Scalar)
    requires
        d.x.is_finite() && d.y.is_finite() && zoom.is_finite(),
        x.translate.x.is_finite() && x.translate.y.is_finite(),
        size(value(d.x)) <= 0x4000real && size(value(d.y)) <= 0x4000real,
        1real <= 0x40real * value(zoom),
        value(zoom) <= 0x40real,
        size(value(x.translate.x)) <= 0x4_0000real && size(value(x.translate.y))
            <= 0x4_0000real,
    ensures
        ({
            let (was, now) = (x.translate, x.dragged(Some(d), false, zoom).translate);
            &&& now.x.is_finite() && now.y.is_finite()
            &&& within(value(now.x), value(was.x) + value(d.x) / value(zoom), 1real / 4real)
            &&& within(value(now.y), value(was.y) + value(d.y) / value(zoom), 1real / 4real)
            &&& size(value(was.x)) <= 0x1000real && size(value(d.x)) <= 0x100real ==> within(
                value(now.x),
                value(was.x) + value(d.x) / value(zoom),
                1real / 256real,
            )
            &&& size(value(was.y)) <= 0x1000real && size(value(d.y)) <= 0x100real ==> within(
                value(now.y),
                value(was.y) + value(d.y) / value(zoom),
                1real / 256real,
            )
            &&& x.dragged(Some(d), false, zoom).scale == x.scale
        }),
{
    lemma_step_in_document(d.x, zoom, x.translate.x);
    lemma_step_in_document(d.y, zoom, x.translate.y);
}

/// Dragging up enlarges a layer, and dragging down makes it smaller, by five thousandths
/// for each point of the screen, between a twentieth and twenty times; it moves nothing.
pub proof fn law_drag_scales_upwards(x: Xform, d: Point, zoom: Scalar)
    requires
        d.y.is_finite() && size(value(d.y)) <= 0x1000real,
        x.scale.is_finite() && 0real <= value(x.scale) <= 20real,
    ensures
        ({
            let now = x.dragged(Some(d), true, zoom);
            let goal = value(x.scale) * (1real - value(d.y) * (5real / 1000real));
            &&& now.translate == x.translate
            &&& now.scale.is_finite()
            &&& within(
                value(now.scale),
                if 20real * goal < 1real {
                    1real / 20real
                } else if goal > 20real {
                    20real
                } else {
                    goal
                },
                1real / 1024real,
            )
        }),
{
    let (one, rate) = (Scalar { bits: ONE }, Scalar { bits: SCALE_RATE });
    let (lo, hi) = (Scalar { bits: LEAST_SCALE }, Scalar { bits: LARGEST_SCALE });
    lemma_constants();
    lemma2_to64();
    lemma_pattern(rate, 31, 0xa3_d70a, 0x8000_0000);
    lemma_pattern(lo, 28, 0xcc_cccd, 0x1000_0000);
    lemma_pattern(hi, 19, 0xa0_0000, 0x8_0000);
    let (y, s) = (value(d.y), value(x.scale));
    let k = 5real / 1000real;
    law_product_tracks(
        d.y,
        rate,
        y,
        k,
        0real,
        parts(1real / 256real),
        0x1000real,
        k,
        parts(0x10real),
        21real,
        parts(38real),
    );
    law_difference_tracks(
        one,
        d.y.product(rate),
        1real,
        y * k,
        0real,
        parts(38real),
        22real,
        parts(61real),
    );
    let f = one.difference(d.y.product(rate));
    law_product_tracks(
        x.scale,
        f,
        s,
        1real - y * k,
        0real,
        parts(61real),
        20real,
        22real,
        parts(1220real),
        440real,
        parts(1661real),
    );
    law_order_of_values(x.scale.product(f), lo);
    law_order_of_values(hi, x.scale.product(f));
}

/// How many of the first `n` pixels are in a region.
pub open spec fn marked_before(region: Seq<bool>, n: int) -> int
    decreases n,
{
    if n <= 0 {
        0
    } else {
        marked_before(region, n - 1) + if region[n - 1] {
            1int
        } else {
            0
        }
    }
}

/// Adding the middle of pixel `x` to a sum of middles that counts in halves.
proof fn lemma_middle_added(s: Scalar, t: int, x: int)
    requires
        s.is_finite() && 2real * value(s) == t as real,
        0 <= t <= 0x40_0000,
        0 <= x < 0x10_0000,
    ensures
        ({
            let r = s.sum(Scalar::whole(x).sum(Scalar { bits: HALF }));
            r.is_finite() && 2real * value(r) == (t + 2 * x + 1) as real
        }),
{
    let half = Scalar { bits: HALF };
    lemma_constants();
    law_whole(x);
    lemma_half_whole(2 * x + 1);
    law_sum_is_exact(Scalar::whole(x), half, half_whole(2 * x + 1));
    lemma_half_whole(t + 2 * x + 1);
    law_sum_is_exact(s, Scalar::whole(x).sum(half), half_whole(t + 2 * x + 1));
}

/// Whether a scalar is between `k` times the middles of pixels `lo` and `hi`, counted in
/// halves, and has no finer part than a half.
spec fn sums_up(s: Scalar, t: int, k: int, lo: int, hi: int) -> bool {
    &&& s.is_finite() && 2real * value(s) == t as real
    &&& k * (2 * lo + 1) <= t <= k * (2 * hi + 1)
}

proof fn lemma_region_sums(
    region: Seq<bool>,
    w: int,
    n: int,
    x0: int,
    x1: int,
    y0: int,
    y1: int,
) -> (r: (int, int))
    requires
        1 <= w,
        0 <= n <= region.len(),
        0 <= x0 <= x1 < 0x800 && 0 <= y0 <= y1 < 0x800,
        marked_before(region, n) <= 0x200,
        forall|i: int|
            0 <= i < n && #[trigger] region[i] ==> x0 <= i % w <= x1 && y0 <= i / w <= y1,
    ensures
        ({
            let (sx, sy, c) = region_sums(region, w, n);
            let k = marked_before(region, n);
            &&& 0 <= k
            &&& c.is_finite() && value(c) == k as real
            &&& sums_up(sx, r.0, k, x0, x1)
            &&& sums_up(sy, r.1, k, y0, y1)
        }),
    decreases n,
{
    lemma_constants();
    if n <= 0 {
        (0, 0)
    } else {
        let i = n - 1;
        lemma_count_not_negative(region, i);
        let (tx, ty) = lemma_region_sums(region, w, i, x0, x1, y0, y1);
        if region[i] {
            let (sx, sy, c) = region_sums(region, w, i);
            let k = marked_before(region, i);
            let (x, y) = (i % w, i / w);
            assert(0 <= tx <= 0x40_0000 && 0 <= ty <= 0x40_0000) by (nonlinear_arith)
                requires
                    0 <= k <= 0x200,
                    0 <= x0 <= x1 < 0x800,
                    0 <= y0 <= y1 < 0x800,
                    k * (2 * x0 + 1) <= tx <= k * (2 * x1 + 1),
                    k * (2 * y0 + 1) <= ty <= k * (2 * y1 + 1),
            ;
            lemma_middle_added(sx, tx, x);
            lemma_middle_added(sy, ty, y);
            law_whole(k + 1);
            law_sum_is_exact(c, Scalar { bits: ONE }, Scalar::whole(k + 1));
            lemma_mul_is_distributive_add_other_way(2 * x0 + 1, k, 1);
            lemma_mul_is_distributive_add_other_way(2 * x1 + 1, k, 1);
            lemma_mul_is_distributive_add_other_way(2 * y0 + 1, k, 1);
            lemma_mul_is_distributive_add_other_way(2 * y1 + 1, k, 1);
            (tx + 2 * x + 1, ty + 2 * y + 1)
        } else {
            (tx, ty)
        }
    }
}

proof fn lemma_count_not_negative(region: Seq<bool>, n: int)
    ensures
        marked_before(region, n) >= 0,
    decreases n,
{
    if n > 0 {
        lemma_count_not_negative(region, n - 1);
    }
}

/// A sum of middles, divided by their number, is between the first and the last of them.
proof fn lemma_mean(s: Scalar, c: Scalar, t: int, k: int, lo: int, hi: int)
    requires
        sums_up(s, t, k, lo, hi),
        c.is_finite() && value(c) == k as real,
        k >= 1,
        0 <= lo <= hi < 0x800,
    ensures
        s.quotient(c).is_finite(),
        lo as real + 1real / 2real <= value(s.quotient(c)) <= hi as real + 1real / 2real,
{
    let (a, b) = (half_whole(2 * lo + 1), half_whole(2 * hi + 1));
    lemma_constants();
    lemma_half_whole(2 * lo + 1);
    lemma_half_whole(2 * hi + 1);
    law_order_of_values(c, Scalar { bits: 0 });
    let (v, n, z) = (value(s), value(c), value(s) / value(c));
    lemma_real_product(k, 2 * lo + 1);
    lemma_real_product(k, 2 * hi + 1);
    let (l, h) = ((2 * lo + 1) as real, (2 * hi + 1) as real);
    assert(n * l <= 2real * v <= n * h);
    assert(l <= 2real * z <= h) by (nonlinear_arith)
        requires
            z == v / n,
            n >= 1real,
            n * l <= 2real * v <= n * h,
    ;
    law_quotient_stays_within(s, c, a);
    law_quotient_stays_within(s, c, b);
    law_order_of_values(a, s.quotient(c));
    law_order_of_values(s.quotient(c), b);
}

/// The middle of a region lies among its pixels: on each axis it is not before the middle
/// of the first column or row that the region has pixels in, and not after that of the
/// last. So the middle of a single pixel's region is the middle of the pixel. Stated of
/// regions of up to 512 pixels, whose sums are exact.
pub proof fn law_centroid_is_among_the_pixels(
    region: Seq<bool>,
    w: int,
    x0: int,
    x1: int,
    y0: int,
    y1: int,
)
    requires
        1 <= w,
        0 <= x0 <= x1 < 0x800 && 0 <= y0 <= y1 < 0x800,
        1 <= marked_before(region, region.len() as int) <= 0x200,
        forall|i: int|
            0 <= i < region.len() && #[trigger] region[i] ==> x0 <= i % w <= x1 && y0 <= i / w
                <= y1,
    ensures
        ({
            let (sx, sy, c) = region_sums(region, w, region.len() as int);
            let (x, y) = (sx.quotient(c), sy.quotient(c));
            &&& (Scalar { bits: 0 }).less(c)
            &&& x.is_finite() && y.is_finite()
            &&& x0 as real + 1real / 2real <= value(x) <= x1 as real + 1real / 2real
            &&& y0 as real + 1real / 2real <= value(y) <= y1 as real + 1real / 2real
        }),
{
    let n = region.len() as int;
    let (tx, ty) = lemma_region_sums(region, w, n, x0, x1, y0, y1);
    let (sx, sy, c) = region_sums(region, w, n);
    let k = marked_before(region, n);
    lemma_constants();
    law_order_of_values(Scalar { bits: 0 }, c);
    lemma_mean(sx, c, tx, k, x0, x1);
    lemma_mean(sy, c, ty, k, y0, y1);
}

} // verus!
