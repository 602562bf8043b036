//! Selecting, and the tools that are dragged across the canvas: marquees, lassos,
//! shapes and gradients.
//!
//! How two selections are combined and what a selection is turned into is left to
//! the caller, as is the length of a distance.

use crate::color::{sample_color, sampled_byte, selection_of, SAMPLE_ALPHA};
use crate::editor::{PigmentApp, Selection};
use crate::geometry::{clamp_seed, off_canvas, Point, Size, ONE};
use crate::gradient::{byte_level, level_of, Rgb8};
use crate::grid::{cell, on_grid, pixel_count};
use crate::layer::{lemma_place, place, Layer, LayerId, LayerKind, VectorDef};
use crate::mask::{in_marquee, shape_mask};
use crate::scalar::Scalar;
use crate::stroke::Brush;
use crate::tools::{marquee_box, marquee_rect, mode_from_modifiers, CombineMode, Tool};
use vstd::arithmetic::mul::*;
use vstd::prelude::*;

verus! {

broadcast use vstd::std_specs::hash::group_hash_axioms;

/// A selection that covers nothing.
pub open spec fn unselected(size: Size) -> Seq<Scalar> {
    Seq::new((size.width * size.height) as nat, |i: int| Scalar { bits: 0 })
}

/// How a new selection is combined, by the keys that are held.
pub open spec fn held_mode(shift: bool, alt: bool) -> CombineMode {
    if shift && alt {
        CombineMode::Intersect
    } else if shift {
        CombineMode::Add
    } else if alt {
        CombineMode::Subtract
    } else {
        CombineMode::Replace
    }
}

/// `m` is a marquee between two points, as a mask of zeros and ones.
pub open spec fn marquee_drawn(
    start: Point,
    cur: Point,
    ellipse: bool,
    size: Size,
    m: Seq<Scalar>,
) -> bool {
    let (w, h) = (size.width as int, size.height as int);
    &&& m.len() == w * h
    &&& forall|x: int, y: int|
        on_grid(w, h, x, y) ==> #[trigger] cell(m, w, x, y) == (Scalar {
            bits: if in_marquee(marquee_box(start, cur), ellipse, x, y) {
                ONE
            } else {
                0
            },
        })
}

/// `next` is what `f` makes of a selection.
pub open spec fn mapped<F: Fn(&Vec<Scalar>, u32, u32) -> Vec<Scalar>>(
    f: F,
    m: Vec<Scalar>,
    size: Size,
    next: Vec<Scalar>,
) -> bool {
    call_ensures(f, (&m, size.width, size.height), next)
}

/// `r` is what `combine` makes of a selection and a mask.
pub open spec fn combined<C: Fn(&Vec<Scalar>, &Vec<Scalar>, CombineMode) -> Vec<Scalar>>(
    combine: C,
    was: Selection,
    mask: Vec<Scalar>,
    r: Vec<Scalar>,
) -> bool {
    call_ensures(combine, (&was.base, &mask, was.mode), r)
}

impl PigmentApp {
    /// What is selected, if `read` could be read: nothing where there is no
    /// selection, or it could not be read.
    pub open spec fn selected(self, read: Option<Seq<Scalar>>) -> Seq<Scalar> {
        match read {
            Some(m) if self.selection.active => m,
            _ => unselected(self.doc.size),
        }
    }

    /// What is selected, if `read` could be read.
    pub fn read_selection(&self, read: Option<Vec<Scalar>>) -> (r: Vec<Scalar>)
        requires
            self.wf(),
        ensures
            r@ == self.selected(
                match read {
                    Some(m) => Some(m@),
                    None => None,
                },
            ),
    {
        proof {
            lemma_mul_nonnegative(self.doc.size.width as int, self.doc.size.height as int);
        }
        if self.selection.active {
            if let Some(m) = read {
                return m;
            }
        }
        let n: usize = pixel_count(self.doc.size.width, self.doc.size.height);
        let r: Vec<Scalar> = vec![Scalar::zero();n];
        assert(r@ =~= unselected(self.doc.size));
        r
    }

    /// A selection was put in place.
    pub open spec fn reselected(self, before: PigmentApp) -> bool {
        self == (PigmentApp {
            selection: Selection { active: true, ..before.selection },
            ..before
        })
    }

    /// Turn the selection into another, if there is one.
    pub fn map_selection<F: Fn(&Vec<Scalar>, u32, u32) -> Vec<Scalar>>(
        &mut self,
        read: Option<Vec<Scalar>>,
        f: &F,
    ) -> (r: Option<Vec<Scalar>>)
        requires
            old(self).wf(),
            forall|m: &Vec<Scalar>, w: u32, h: u32| #[trigger] call_requires(*f, (m, w, h)),
        ensures
            r is Some == old(self).selection.active,
            r matches Some(next) ==> exists|m: Vec<Scalar>|
                m@ == old(self).selected(
                    match read {
                        Some(m) => Some(m@),
                        None => None,
                    },
                ) && #[trigger] mapped(*f, m, old(self).doc.size, next),
            *final(self) == *old(self),
    {
        if !self.selection.active {
            return None;
        }
        let m: Vec<Scalar> = self.read_selection(read);
        let next: Vec<Scalar> = f(&m, self.doc.size.width, self.doc.size.height);
        let r: Option<Vec<Scalar>> = Some(next);
        assert(mapped(*f, m, self.doc.size, r->0));
        r
    }

    /// Combine a mask with the selection that was there before, as the mode says.
    pub fn commit_selection<C: Fn(&Vec<Scalar>, &Vec<Scalar>, CombineMode) -> Vec<Scalar>>(
        &mut self,
        mask: &Vec<Scalar>,
        combine: &C,
    ) -> (r: Vec<Scalar>)
        requires
            forall|a: &Vec<Scalar>, b: &Vec<Scalar>, m: CombineMode| #[trigger]
                call_requires(*combine, (a, b, m)),
        ensures
            combined(*combine, old(self).selection, *mask, r),
            final(self).reselected(*old(self)),
    {
        let r: Vec<Scalar> = combine(&self.selection.base, mask, self.selection.mode);
        self.selection.active = true;
        r
    }

    /// A selection is begun: how it is combined, and with what.
    pub open spec fn begins_selection(
        self,
        before: PigmentApp,
        shift: bool,
        alt: bool,
        read: Option<Vec<Scalar>>,
    ) -> bool {
        &&& self.selection.mode == held_mode(shift, alt)
        &&& self.selection.base@ == before.selected(
            match read {
                Some(m) => Some(m@),
                None => None,
            },
        )
    }

    fn begin_selection(&mut self, shift: bool, alt: bool, read: Option<Vec<Scalar>>)
        requires
            old(self).wf(),
        ensures
            final(self).begins_selection(*old(self), shift, alt, read),
            *final(self) == (PigmentApp {
                selection: Selection {
                    mode: final(self).selection.mode,
                    base: final(self).selection.base,
                    ..old(self).selection
                },
                ..*old(self)
            }),
    {
        self.selection.mode = mode_from_modifiers(shift, alt);
        self.selection.base = self.read_selection(read);
    }

    /// Begin a marquee.
    pub fn marquee_start(&mut self, at: Point, shift: bool, alt: bool, read: Option<Vec<Scalar>>)
        requires
            old(self).wf(),
        ensures
            final(self).begins_selection(*old(self), shift, alt, read),
            *final(self) == (PigmentApp {
                selection: Selection {
                    drag_start: Some(at),
                    mode: final(self).selection.mode,
                    base: final(self).selection.base,
                    ..old(self).selection
                },
                ..*old(self)
            }),
    {
        self.begin_selection(shift, alt, read);
        self.selection.drag_start = Some(at);
    }

    /// The mask of the marquee as it is dragged to `cur`, if one was begun.
    pub fn marquee_mask(&self, cur: Point) -> (r: Option<Vec<Scalar>>)
        requires
            self.wf(),
        ensures
            match r {
                Some(m) => self.selection.drag_start matches Some(start) && marquee_drawn(
                    start,
                    cur,
                    self.tool is SelectEllipse,
                    self.doc.size,
                    m@,
                ),
                None => self.selection.drag_start is None,
            },
    {
        proof {
            lemma_mul_nonnegative(self.doc.size.width as int, self.doc.size.height as int);
        }
        let ellipse: bool = match self.tool {
            Tool::SelectEllipse => true,
            _ => false,
        };
        match self.selection.drag_start {
            Some(start) => Some(
                shape_mask(
                    marquee_rect(start, cur),
                    ellipse,
                    self.doc.size.width,
                    self.doc.size.height,
                ),
            ),
            None => None,
        }
    }

    /// A marquee or a shape is let go.
    pub fn marquee_stop(&mut self)
        ensures
            *final(self) == (PigmentApp {
                selection: Selection { drag_start: None, ..old(self).selection },
                ..*old(self)
            }),
    {
        self.selection.drag_start = None;
    }

    /// Begin a lasso, at the pointer if it is there.
    pub fn lasso_start(
        &mut self,
        at: Option<Point>,
        shift: bool,
        alt: bool,
        read: Option<Vec<Scalar>>,
    )
        requires
            old(self).wf(),
        ensures
            final(self).begins_selection(*old(self), shift, alt, read),
            final(self).selection.lasso.points@ == (match at {
                Some(p) => seq![p],
                None => Seq::<Point>::empty(),
            }),
            *final(self) == (PigmentApp {
                selection: Selection {
                    lasso: final(self).selection.lasso,
                    mode: final(self).selection.mode,
                    base: final(self).selection.base,
                    ..old(self).selection
                },
                ..*old(self)
            }),
    {
        self.begin_selection(shift, alt, read);
        self.selection.lasso.start(at);
    }

    /// Click with the magic wand: the pixel to flood from, if it is on the canvas.
    pub fn wand_click(
        &mut self,
        at: Point,
        shift: bool,
        alt: bool,
        read: Option<Vec<Scalar>>,
    ) -> (r: Option<(u32, u32)>)
        requires
            old(self).wf(),
        ensures
            match r {
                Some(seed) => {
                    &&& !off_canvas(at, old(self).doc.size)
                    &&& seed.0 == at.x.cast(at.x.trunc_int(), 0, u32::MAX as int)
                    &&& seed.1 == at.y.cast(at.y.trunc_int(), 0, u32::MAX as int)
                    &&& final(self).begins_selection(*old(self), shift, alt, read)
                },
                None => off_canvas(at, old(self).doc.size) && *final(self) == *old(self),
            },
            *final(self) == (PigmentApp {
                selection: Selection {
                    mode: final(self).selection.mode,
                    base: final(self).selection.base,
                    ..old(self).selection
                },
                ..*old(self)
            }),
    {
        let seed: Option<(u32, u32)> = clamp_seed(at, self.doc.size);
        if seed.is_some() {
            self.begin_selection(shift, alt, read);
        }
        seed
    }

    /// Select what the magic wand flooded, if the picture could be read. The
    /// picture has to be drawn again either way.
    pub fn do_magic_wand<C: Fn(&Vec<Scalar>, &Vec<Scalar>, CombineMode) -> Vec<Scalar>>(
        &mut self,
        flooded: Option<Vec<bool>>,
        combine: &C,
    ) -> (r: Option<Vec<Scalar>>)
        requires
            forall|a: &Vec<Scalar>, b: &Vec<Scalar>, m: CombineMode| #[trigger]
                call_requires(*combine, (a, b, m)),
        ensures
            r is Some == flooded is Some,
            r matches Some(m) ==> exists|mask: Vec<Scalar>|
                as_selection(flooded->0@, mask@) && #[trigger] combined(
                    *combine,
                    old(self).selection,
                    mask,
                    m,
                ),
            *final(self) == (PigmentApp {
                selection: Selection {
                    active: old(self).selection.active || flooded is Some,
                    ..old(self).selection
                },
                force_composite: true,
                ..*old(self)
            }),
    {
        self.force_composite = true;
        match flooded {
            Some(b) => {
                let mask: Vec<Scalar> = selection_of(b.as_slice());
                let m: Vec<Scalar> = self.commit_selection(&mask, combine);
                let r: Option<Vec<Scalar>> = Some(m);
                assert(combined(*combine, old(self).selection, mask, r->0));
                r
            },
            None => None,
        }
    }

    /// Take the colour of a premultiplied pixel, if it could be read and has any.
    /// Sampling all layers has them drawn again.
    pub fn do_eyedrop<F: Fn(Scalar) -> Scalar>(&mut self, px: Option<[Scalar; 4]>, display: &F)
        requires
            forall|x: Scalar| #[trigger] call_requires(*display, (x,)),
        ensures
            match px {
                Some(p) if (Scalar { bits: SAMPLE_ALPHA }).less(p@[3]) => {
                    let c = final(self).brush.color;
                    &&& sampled_byte(*display, p@[0], p@[3], c.r)
                    &&& sampled_byte(*display, p@[1], p@[3], c.g)
                    &&& sampled_byte(*display, p@[2], p@[3], c.b)
                },
                _ => final(self).brush.color == old(self).brush.color,
            },
            *final(self) == (PigmentApp {
                brush: Brush { color: final(self).brush.color, ..old(self).brush },
                force_composite: old(self).force_composite || old(self).fill.sample_all,
                ..*old(self)
            }),
    {
        if let Some(p) = px {
            if let Some(c) = sample_color(p, display) {
                self.brush.color = c;
            }
        }
        if self.fill.sample_all {
            self.force_composite = true;
        }
    }
}

/// `sel` is a region as a selection mask of zeros and ones.
pub open spec fn as_selection(region: Seq<bool>, sel: Seq<Scalar>) -> bool {
    sel.len() == region.len() && forall|i: int|
        0 <= i < sel.len() ==> (#[trigger] sel[i]).bits == (if region[i] {
            ONE
        } else {
            0
        })
}

/// The layers differ in the box of the vector layer at `i` alone.
pub open spec fn reshaped(was: Seq<Layer>, now: Seq<Layer>, i: int, rect: Seq<Scalar>) -> bool {
    &&& now.len() == was.len()
    &&& forall|k: int| 0 <= k < was.len() && k != i ==> #[trigger] now[k] == was[k]
    &&& was[i].kind matches LayerKind::Vector(v) && now[i].kind matches LayerKind::Vector(n)
        && n.rect@ == rect && n.kind == v.kind && n.color == v.color && now[i] == (Layer {
        kind: now[i].kind,
        ..was[i]
    })
}

impl PigmentApp {
    /// A shape's colour: the brush's, opaque.
    pub open spec fn shape_color(self) -> Seq<Scalar> {
        let c = self.brush.color;
        seq![byte_level(c.r), byte_level(c.g), byte_level(c.b), Scalar { bits: ONE }]
    }

    /// Begin a shape: a vector layer of its own, with no extent yet.
    pub fn shape_start(&mut self, at: Point) -> (id: LayerId)
        requires
            old(self).wf(),
            old(self).doc.layers.next_id < u64::MAX,
        ensures
            final(self).wf(),
            id == LayerId(old(self).doc.layers.next_id),
            ({
                let layers = final(self).doc.layers.layers@;
                &&& layers.len() == old(self).doc.layers.layers@.len() + 1
                &&& layers.drop_last() == old(self).doc.layers.layers@
                &&& layers.last().fresh(id, "Shape"@, layers.last().kind)
                &&& layers.last().kind matches LayerKind::Vector(v) && v.kind == (
                if old(self).tool is ShapeEllipse {
                    1u8
                } else {
                    0u8
                }) && v.rect@ == seq![at.x, at.y, Scalar { bits: 0 }, Scalar { bits: 0 }]
                    && v.color@ == old(self).shape_color()
            }),
            final(self).doc.layers.next_id == old(self).doc.layers.next_id + 1,
            final(self).doc.active_layer == Some(id),
            final(self).doc.size == old(self).doc.size,
            *final(self) == (PigmentApp {
                doc: final(self).doc,
                selection: Selection { drag_start: Some(at), ..old(self).selection },
                shape_drag: Some(id),
                ..*old(self)
            }),
    {
        let c: Rgb8 = self.brush.color;
        let kind: u8 = match self.tool {
            Tool::ShapeEllipse => 1,
            _ => 0,
        };
        let (zero, one): (Scalar, Scalar) = (Scalar::zero(), Scalar { bits: ONE });
        let v: VectorDef = VectorDef {
            kind,
            rect: [at.x, at.y, zero, zero],
            color: [level_of(c.r), level_of(c.g), level_of(c.b), one],
        };
        assert(v.rect@ =~= seq![at.x, at.y, zero, zero]);
        assert(v.color@ =~= old(self).shape_color());
        let id: LayerId = self.add_layer("Shape".to_owned(), LayerKind::Vector(v));
        self.selection.drag_start = Some(at);
        self.shape_drag = Some(id);
        id
    }

    /// Drag the shape open to `cur`, if one was begun and its layer is still
    /// there.
    pub fn shape_drag_to(&mut self, cur: Point)
        requires
            old(self).wf(),
        ensures
            final(self).wf(),
            ({
                let (was, now) = (old(self).doc.layers.layers@, final(self).doc.layers.layers@);
                let id = old(self).shape_drag;
                let i = place(was, id->0);
                if old(self).selection.drag_start is Some && id is Some && i < was.len()
                    && was[i].kind is Vector {
                    reshaped(was, now, i, marquee_box(old(self).selection.drag_start->0, cur))
                } else {
                    now == was
                }
            }),
            final(self).doc.layers.next_id == old(self).doc.layers.next_id,
            final(self).doc.size == old(self).doc.size,
            final(self).doc.active_layer == old(self).doc.active_layer,
            *final(self) == (PigmentApp { doc: final(self).doc, ..*old(self) }),
    {
        let start: Point = match self.selection.drag_start {
            Some(s) => s,
            None => {
                return;
            },
        };
        let id: LayerId = match self.shape_drag {
            Some(id) => id,
            None => {
                return;
            },
        };
        let i: usize = match self.doc.layers.position(id) {
            Some(i) => i,
            None => {
                return;
            },
        };
        proof {
            lemma_place(self.doc.layers.layers@, id);
        }
        let was: VectorDef = match &self.doc.layers.layers[i].kind {
            LayerKind::Vector(v) => *v,
            _ => {
                return;
            },
        };
        let rect: [Scalar; 4] = marquee_rect(start, cur);
        self.doc.layers.layers[i].kind =
        LayerKind::Vector(VectorDef { kind: was.kind, rect, color: was.color });
    }

    /// The shape is let go.
    pub fn shape_stop(&mut self)
        ensures
            *final(self) == (PigmentApp {
                selection: Selection { drag_start: None, ..old(self).selection },
                shape_drag: None,
                ..*old(self)
            }),
    {
        self.shape_drag = None;
        self.selection.drag_start = None;
    }

    /// Begin a gradient.
    pub fn gradient_start(&mut self, at: Point)
        ensures
            *final(self) == (PigmentApp { grad_start: Some(at), ..*old(self) }),
    {
        self.grad_start = Some(at);
    }

    /// The gradient is let go: from where to where it runs, if it was begun and
    /// the pointer is there.
    pub fn gradient_stop(&mut self, at: Option<Point>) -> (r: Option<(Point, Point)>)
        ensures
            r == (match (old(self).grad_start, at) {
                (Some(s), Some(p)) => Some((s, p)),
                _ => None,
            }),
            *final(self) == (PigmentApp { grad_start: None, ..*old(self) }),
    {
        let start: Option<Point> = self.grad_start;
        self.grad_start = None;
        match (start, at) {
            (Some(s), Some(p)) => Some((s, p)),
            _ => None,
        }
    }
}

} // verus!
