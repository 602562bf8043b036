//! The brushes: what a frame with the pointer down makes of the stroke, and what is
//! left to do when it ends.

use crate::editor::PigmentApp;
use crate::editor_edit::whole_layer;
use crate::geometry::{Point, HALF, LEAST_EXTENT, ONE};
use crate::grid::pixel_count;
use crate::scalar::Scalar;
use crate::stroke::{
    ends_at, far_enough, retouch_done, retouch_frame, tone_done, tone_frame, Dab, Release, Stroke,
    StrokeMode, Touch,
};
use crate::tools::Tool;
use vstd::arithmetic::mul::*;
use vstd::prelude::*;

verus! {

broadcast use vstd::std_specs::hash::group_hash_axioms;

/// 0.4 and 0.5, how much of its opacity a dodging and a detail brush lays on with
/// each dab, and 0.02, the least that it does.
pub const DODGE_FLOW: u32 = 0x3ecc_cccd;

pub const DETAIL_FLOW: u32 = 0x3f00_0000;

pub const LEAST_FLOW: u32 = 0x3ca3_d70a;

/// 0.05, the least strength of a warp, and 0.08 and 0.04, how much of its strength
/// it twirls and pinches with each stamp.
pub const LEAST_WARP: u32 = 0x3d4c_cccd;

pub const TWIRL_RATE: u32 = 0x3da3_d70a;

pub const PINCH_RATE: u32 = 0x3d23_d70a;

/// -1.
pub const MINUS_ONE: u32 = 0xbf80_0000;

/// A stamp on the displacement of a warp, at the pointer.
#[derive(Clone, Copy, PartialEq, Eq, Structural, Debug)]
pub enum WarpStamp {
    Push { by: Point, strength: Scalar },
    Twirl { angle: Scalar },
    /// Towards the middle, or away from it where `direction` is -1.
    Pinch { direction: Scalar, amount: Scalar },
}

/// The pointer in a frame.
#[derive(Clone, Copy, PartialEq, Eq, Structural, Debug)]
pub struct Pointer {
    /// Where it is, in document pixels, while it is down.
    pub at: Option<Point>,
    /// It went down in this frame.
    pub pressed: bool,
    /// It went up in this frame.
    pub released: bool,
    pub alt: bool,
}

impl PigmentApp {
    /// How the brush and the eraser paint: a mask is painted on at once and cannot
    /// be undone, and the eraser does not use the wet layer.
    pub open spec fn brush_mode(self, dt: Scalar) -> StrokeMode {
        let mask = self.edit_mask && self.masked_layers@.contains(self.spec_active_id().0);
        StrokeMode {
            undoable: !mask,
            wet: !(self.tool is Eraser) && !mask,
            dt: Some(dt.greater(Scalar { bits: LEAST_EXTENT })),
        }
    }

    /// A frame with the brush or the eraser, `dt` after the last one.
    pub fn brush_frame<L: Fn(Point) -> Scalar>(
        &mut self,
        p: Pointer,
        dt: Scalar,
        length: &L,
    ) -> (r: (Option<Touch>, Release))
        requires
            forall|q: Point| #[trigger] call_requires(*length, (q,)),
        ensures
            exists|mid: Stroke| #[trigger]
                painted(
                    *old(self),
                    p.at,
                    old(self).brush_mode(dt),
                    *length,
                    mid,
                    r.0,
                ) && final(self).stroke == mid.finished(p.released, p.at is Some)
                    && r.1.commit_command == mid.ends(p.released, p.at is Some) && r.1.wet_end == (
                mid.wet && r.1.commit_command),
            *final(self) == (PigmentApp { stroke: final(self).stroke, ..*old(self) }),
    {
        let mask: bool = self.paints_mask();
        let erase: bool = match self.tool {
            Tool::Eraser => true,
            _ => false,
        };
        let dt: Scalar = dt.max(Scalar { bits: LEAST_EXTENT });
        let mode: StrokeMode = StrokeMode { undoable: !mask, wet: !erase && !mask, dt: Some(dt) };
        let touch: Option<Touch> = match p.at {
            Some(cur) => Some(self.stroke.advance(cur, &self.brush, mode, length)),
            None => None,
        };
        let ghost mid = self.stroke;
        let release: Release = self.stroke.finish(p.released, p.at.is_some());
        let r: (Option<Touch>, Release) = (touch, release);
        assert(painted(*old(self), p.at, old(self).brush_mode(dt), *length, mid, r.0));
        r
    }
}

impl PigmentApp {
    /// The alpha of dabs. The brush covers fully, as the opacity is applied when
    /// the wet layer is flattened.
    pub open spec fn dab_alpha(self) -> Scalar {
        if self.tool is Eraser || self.tool is Clone {
            self.brush.opacity
        } else {
            Scalar { bits: ONE }
        }
    }

    /// The dabs of a move of the pointer, given the transfer from display space to
    /// linear light.
    pub fn paint_dabs<F: Fn(Scalar) -> Scalar>(&self, t: &Touch, linear: &F) -> (r: Vec<Dab>)
        requires
            forall|x: Scalar| #[trigger] call_requires(*linear, (x,)),
        ensures
            r@.len() == t.spots@.len(),
            forall|i: int|
                0 <= i < r@.len() ==> self.brush.dabs(
                    *linear,
                    t.spots@[i],
                    self.dab_alpha(),
                    t.size_scale,
                    #[trigger] r@[i],
                ),
    {
        let alpha: Scalar = match self.tool {
            Tool::Eraser | Tool::Clone => self.brush.opacity,
            _ => Scalar { bits: ONE },
        };
        let mut r: Vec<Dab> = Vec::new();
        let mut i: usize = 0;
        while i < t.spots.len()
            invariant
                i <= t.spots@.len(),
                alpha == self.dab_alpha(),
                forall|x: Scalar| #[trigger] call_requires(*linear, (x,)),
                r@.len() == i,
                forall|j: int|
                    0 <= j < i ==> self.brush.dabs(
                        *linear,
                        t.spots@[j],
                        alpha,
                        t.size_scale,
                        #[trigger] r@[j],
                    ),
            decreases t.spots@.len() - i,
        {
            r.push(self.brush.dab_at(t.spots[i], alpha, t.size_scale, linear));
            i = i + 1;
        }
        r
    }
}

/// How the clone stamp paints.
pub open spec fn stamp_mode() -> StrokeMode {
    StrokeMode { undoable: true, wet: false, dt: None }
}

/// What the pointer makes of the stroke, if it is down.
pub open spec fn painted<L: Fn(Point) -> Scalar>(
    app: PigmentApp,
    at: Option<Point>,
    mode: StrokeMode,
    length: L,
    mid: Stroke,
    t: Option<Touch>,
) -> bool {
    match at {
        Some(cur) => t matches Some(t) && app.stroke.advances(
            cur,
            app.brush,
            mode,
            length,
            mid,
            t,
        ),
        None => t is None && mid == app.stroke,
    }
}

impl PigmentApp {
    /// The source of a clone or heal after a frame: Alt and a press set it.
    pub open spec fn sourced(self, p: Pointer) -> Option<Point> {
        if p.at is Some && p.alt && p.pressed {
            p.at
        } else {
            self.clone_source
        }
    }

    /// Whether a frame with a clone or heal brush paints: the pointer is down
    /// without Alt, and there is a source.
    pub open spec fn clones(self, p: Pointer) -> bool {
        p.at is Some && !p.alt && self.clone_source is Some
    }

    /// Where a clone or heal brush paints, if it does.
    pub open spec fn clone_at(self, p: Pointer) -> Option<Point> {
        if self.clones(p) {
            p.at
        } else {
            None
        }
    }

    /// Where a retouch brush marks, if it does.
    pub open spec fn retouch_at(self, p: Pointer, sourced: bool) -> Option<Point> {
        if sourced {
            self.clone_at(p)
        } else {
            p.at
        }
    }

    /// The distance from the source to the stroke, fixed at its first dab.
    pub open spec fn cloned_offset(self, p: Pointer) -> Point {
        if self.clones(p) && self.stroke.last is None {
            p.at->0.spec_minus(self.clone_source->0)
        } else {
            self.clone_offset
        }
    }

    /// A frame with the clone stamp.
    pub fn clone_frame<L: Fn(Point) -> Scalar>(&mut self, p: Pointer, length: &L) -> (r: (
        Option<Touch>,
        Release,
    ))
        requires
            forall|q: Point| #[trigger] call_requires(*length, (q,)),
        ensures
            exists|mid: Stroke| #[trigger]
                painted(
                    *old(self),
                    old(self).clone_at(p),
                    stamp_mode(),
                    *length,
                    mid,
                    r.0,
                ) && final(self).stroke == mid.finished(p.released, p.at is Some)
                    && r.1.commit_command == mid.ends(p.released, p.at is Some) && r.1.wet_end == (
                mid.wet && r.1.commit_command),
            final(self).clone_source == old(self).sourced(p),
            final(self).clone_offset == old(self).cloned_offset(p),
            *final(self) == (PigmentApp {
                stroke: final(self).stroke,
                clone_source: final(self).clone_source,
                clone_offset: final(self).clone_offset,
                ..*old(self)
            }),
    {
        let mode: StrokeMode = StrokeMode { undoable: true, wet: false, dt: None };
        let touch: Option<Touch> = match self.aim(p) {
            Some(cur) => Some(self.stroke.advance(cur, &self.brush, mode, length)),
            None => None,
        };
        let ghost mid = self.stroke;
        let release: Release = self.stroke.finish(p.released, p.at.is_some());
        let r: (Option<Touch>, Release) = (touch, release);
        assert(painted(*old(self), old(self).clone_at(p), stamp_mode(), *length, mid, r.0));
        r
    }

    /// Where a clone or heal brush paints, if it does; Alt sets the source
    /// instead.
    fn aim(&mut self, p: Pointer) -> (r: Option<Point>)
        ensures
            r == old(self).clone_at(p),
            final(self).clone_source == old(self).sourced(p),
            final(self).clone_offset == old(self).cloned_offset(p),
            *final(self) == (PigmentApp {
                clone_source: final(self).clone_source,
                clone_offset: final(self).clone_offset,
                ..*old(self)
            }),
    {
        let cur: Point = match p.at {
            Some(cur) => cur,
            None => {
                return None;
            },
        };
        if p.alt {
            if p.pressed {
                self.clone_source = Some(cur);
            }
            return None;
        }
        match self.clone_source {
            Some(src) => {
                if self.stroke.last.is_none() {
                    self.clone_offset = cur.minus(src);
                }
                Some(cur)
            },
            None => None,
        }
    }

    /// The radius of a retouch.
    pub open spec fn radius(self) -> Scalar {
        self.brush.size.product(Scalar { bits: HALF })
    }

    /// A frame with a retouch brush: the healing brush, which needs a source, or
    /// the spot heal and the content-aware fill, which do not. The marks are
    /// returned when there is something to heal.
    pub fn heal_frame<L: Fn(Point) -> Scalar>(
        &mut self,
        p: Pointer,
        sourced: bool,
        length: &L,
    ) -> (r: Option<Vec<bool>>)
        requires
            old(self).wf(),
            forall|q: Point| #[trigger] call_requires(*length, (q,)),
        ensures
            retouch_done(
                *length,
                old(self).doc.size,
                old(self).radius(),
                old(self).retouch_at(p, sourced),
                (p.released, p.at is Some),
                old(self).heal_mask@,
                old(self).stroke.last,
                final(self).heal_mask@,
                final(self).stroke.last,
                r,
            ),
            final(self).clone_source == (if sourced {
                old(self).sourced(p)
            } else {
                old(self).clone_source
            }),
            final(self).clone_offset == (if sourced {
                old(self).cloned_offset(p)
            } else {
                old(self).clone_offset
            }),
            *final(self) == (PigmentApp {
                stroke: Stroke { last: final(self).stroke.last, ..old(self).stroke },
                heal_mask: final(self).heal_mask,
                clone_source: final(self).clone_source,
                clone_offset: final(self).clone_offset,
                force_composite: old(self).force_composite || r is Some,
                ..*old(self)
            }),
    {
        proof {
            lemma_mul_nonnegative(self.doc.size.width as int, self.doc.size.height as int);
        }
        let at: Option<Point> = if sourced {
            self.aim(p)
        } else {
            p.at
        };
        let r: Scalar = self.brush.size.times(Scalar { bits: HALF });
        let out: Option<Vec<bool>> = retouch_frame(
            &mut self.heal_mask,
            &mut self.stroke.last,
            self.doc.size,
            at,
            p.released,
            p.at.is_some(),
            r,
            length,
        );
        if out.is_some() {
            self.force_composite = true;
        }
        out
    }

    /// How much coverage each dab of a tonal brush adds at its centre.
    pub open spec fn flow(self, rate: u32) -> Scalar {
        self.brush.opacity.product(Scalar { bits: rate }).limited(
            Scalar { bits: LEAST_FLOW },
            Scalar { bits: ONE },
        )
    }

    /// A frame with a tonal brush: dodging and burning, or the detail brush. The
    /// coverage is returned when there is something to do.
    pub fn tonal_frame<L: Fn(Point) -> Scalar>(&mut self, p: Pointer, length: &L) -> (r: Option<
        Vec<Scalar>,
    >)
        requires
            old(self).wf(),
            forall|q: Point| #[trigger] call_requires(*length, (q,)),
        ensures
            tone_done(
                *length,
                old(self).doc.size,
                old(self).radius(),
                old(self).flow(
                    if old(self).tool is Detail {
                        DETAIL_FLOW
                    } else {
                        DODGE_FLOW
                    },
                ),
                p.at,
                (p.released, p.at is Some),
                old(self).tone_mask@,
                old(self).stroke.last,
                final(self).tone_mask@,
                final(self).stroke.last,
                r,
            ),
            *final(self) == (PigmentApp {
                stroke: Stroke { last: final(self).stroke.last, ..old(self).stroke },
                tone_mask: final(self).tone_mask,
                force_composite: old(self).force_composite || r is Some,
                ..*old(self)
            }),
    {
        proof {
            lemma_mul_nonnegative(self.doc.size.width as int, self.doc.size.height as int);
        }
        let r: Scalar = self.brush.size.times(Scalar { bits: HALF });
        let rate: u32 = match self.tool {
            Tool::Detail => DETAIL_FLOW,
            _ => DODGE_FLOW,
        };
        let flow: Scalar = self.brush.opacity.times(Scalar { bits: rate }).clamp(
            Scalar { bits: LEAST_FLOW },
            Scalar { bits: ONE },
        );
        let out: Option<Vec<Scalar>> = tone_frame(
            &mut self.tone_mask,
            &mut self.stroke.last,
            self.doc.size,
            p.at,
            p.released,
            r,
            flow,
            length,
        );
        if out.is_some() {
            self.force_composite = true;
        }
        out
    }

    /// Whether a warp has a source and a field of the canvas's size.
    pub open spec fn warps(self) -> bool {
        let n = self.doc.size.width * self.doc.size.height;
        self.liquify.src@.len() == 4 * n && self.liquify.disp@.len() == n
    }

    /// Begin a warp on the straight pixels of the active layer, given its stored
    /// bytes; there are none if it could not be read.
    pub fn liquify_capture(&mut self, bytes: Option<&[u8]>)
        requires
            old(self).wf(),
            bytes matches Some(b) ==> whole_layer(b@, old(self).doc.size),
        ensures
            match bytes {
                Some(b) => old(self).straight_image(b@, final(self).liquify.src@),
                None => final(self).liquify.src@.len() == 0,
            },
            final(self).liquify.disp@.len() == old(self).doc.size.width
                * old(self).doc.size.height,
            forall|i: int|
                0 <= i < final(self).liquify.disp@.len() ==> (
                #[trigger] final(self).liquify.disp@[i])@ == seq![
                    Scalar { bits: 0 },
                    Scalar { bits: 0 },
                ],
            final(self).liquify.mode == old(self).liquify.mode,
            *final(self) == (PigmentApp { liquify: final(self).liquify, ..*old(self) }),
    {
        proof {
            lemma_mul_nonnegative(self.doc.size.width as int, self.doc.size.height as int);
        }
        let n: usize = pixel_count(self.doc.size.width, self.doc.size.height);
        let mut disp: Vec<[Scalar; 2]> = Vec::new();
        let mut i: usize = 0;
        while i < n
            invariant
                i <= n,
                disp@.len() == i,
                forall|j: int|
                    0 <= j < i ==> (#[trigger] disp@[j])@ == seq![
                        Scalar { bits: 0 },
                        Scalar { bits: 0 },
                    ],
            decreases n - i,
        {
            let zero: [Scalar; 2] = [Scalar::zero(), Scalar::zero()];
            assert(zero@ =~= seq![Scalar { bits: 0 }, Scalar { bits: 0 }]);
            disp.push(zero);
            i = i + 1;
        }
        let src: Vec<Scalar> = match bytes {
            Some(b) => self.image_of(b),
            None => Vec::new(),
        };
        self.liquify.src = src;
        self.liquify.disp = disp;
    }

    /// How strongly the warp brush stamps.
    pub open spec fn warp_strength(self) -> Scalar {
        self.brush.opacity.greater(Scalar { bits: LEAST_WARP })
    }

    /// `s` is how the warp brush stamps at `cur`. A push needs a way to go.
    pub open spec fn stamps<L: Fn(Point) -> Scalar>(
        self,
        cur: Point,
        length: L,
        s: Option<WarpStamp>,
    ) -> bool {
        let k = self.warp_strength();
        if self.liquify.src@.len() != 4 * (self.doc.size.width * self.doc.size.height) {
            s is None
        } else if self.liquify.mode == 0 {
            match self.stroke.last {
                None => s is None,
                Some(last) => exists|d: Scalar| #[trigger]
                    call_ensures(length, (cur.spec_minus(last),), d) && s == (if far_enough(d) {
                        Some(WarpStamp::Push { by: cur.spec_minus(last), strength: k })
                    } else {
                        None
                    }),
            }
        } else if self.liquify.mode == 1 {
            s == Some(WarpStamp::Twirl { angle: (Scalar { bits: TWIRL_RATE }).product(k) })
        } else {
            s == Some(
                WarpStamp::Pinch {
                    direction: Scalar {
                        bits: if self.liquify.mode == 2 {
                            ONE
                        } else {
                            MINUS_ONE
                        },
                    },
                    amount: (Scalar { bits: PINCH_RATE }).product(k),
                },
            )
        }
    }

    /// How the warp brush stamps at `cur`, if there is something to warp.
    pub fn liquify_stamp<L: Fn(Point) -> Scalar>(&self, cur: Point, length: &L) -> (r: Option<
        WarpStamp,
    >)
        requires
            self.wf(),
            forall|q: Point| #[trigger] call_requires(*length, (q,)),
        ensures
            self.stamps(cur, *length, r),
    {
        proof {
            lemma_mul_nonnegative(self.doc.size.width as int, self.doc.size.height as int);
        }
        let n: usize = pixel_count(self.doc.size.width, self.doc.size.height);
        if self.liquify.src.len() != 4 * n {
            return None;
        }
        let k: Scalar = self.brush.opacity.max(Scalar { bits: LEAST_WARP });
        if self.liquify.mode == 0 {
            let last: Point = match self.stroke.last {
                Some(last) => last,
                None => {
                    return None;
                },
            };
            let by: Point = cur.minus(last);
            let d: Scalar = length(by);
            let far: bool = d.gt(Scalar { bits: LEAST_EXTENT });
            let r: Option<WarpStamp> = if far {
                Some(WarpStamp::Push { by, strength: k })
            } else {
                None
            };
            assert(call_ensures(*length, (cur.spec_minus(last),), d) && far == far_enough(d));
            r
        } else if self.liquify.mode == 1 {
            Some(WarpStamp::Twirl { angle: Scalar { bits: TWIRL_RATE }.times(k) })
        } else {
            let bits: u32 = if self.liquify.mode == 2 {
                ONE
            } else {
                MINUS_ONE
            };
            Some(
                WarpStamp::Pinch {
                    direction: Scalar { bits },
                    amount: Scalar { bits: PINCH_RATE }.times(k),
                },
            )
        }
    }

    /// Whether the warp can be applied. If so, the picture has to be drawn again.
    pub fn liquify_apply(&mut self) -> (r: bool)
        requires
            old(self).wf(),
        ensures
            r == old(self).warps(),
            *final(self) == (PigmentApp {
                force_composite: old(self).force_composite || r,
                ..*old(self)
            }),
    {
        proof {
            lemma_mul_nonnegative(self.doc.size.width as int, self.doc.size.height as int);
        }
        let n: usize = pixel_count(self.doc.size.width, self.doc.size.height);
        if self.liquify.src.len() != 4 * n || self.liquify.disp.len() != n {
            return false;
        }
        self.force_composite = true;
        true
    }

    /// A frame with the warp brush has passed: remember where it was, or forget
    /// the warp when the stroke ends.
    pub fn liquify_frame(&mut self, p: Pointer)
        ensures
            ({
                let last = if p.at is Some { p.at } else { old(self).stroke.last };
                if ends_at(last, p.released, p.at is Some) {
                    &&& final(self).stroke == (Stroke { last: None, ..old(self).stroke })
                    &&& final(self).liquify.src@.len() == 0
                    &&& final(self).liquify.disp@.len() == 0
                    &&& final(self).liquify.mode == old(self).liquify.mode
                } else {
                    &&& final(self).stroke == (Stroke { last, ..old(self).stroke })
                    &&& final(self).liquify == old(self).liquify
                }
            }),
            *final(self) == (PigmentApp {
                stroke: final(self).stroke,
                liquify: final(self).liquify,
                ..*old(self)
            }),
    {
        if p.at.is_some() {
            self.stroke.last = p.at;
        }
        if p.released || (self.stroke.last.is_some() && p.at.is_none()) {
            self.stroke.last = None;
            self.liquify.src = Vec::new();
            self.liquify.disp = Vec::new();
        }
    }
}

} // verus!
