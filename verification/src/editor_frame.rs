//! The frame loop's decisions: what the pointer does with the tool at hand, which
//! layers have to be drawn again, and whether the picture has.
//!
//! The length of a distance is left to the caller.

use crate::editor::{PigmentApp, Selection};
use crate::fingerprint::{
    draws, layer_fingerprint, layer_order, ranges_of, stack_words, text_fingerprint, text_words,
    vector_fingerprint, vector_words, word, AdjustCode, LayerDraw,
};
use crate::geometry::{
    compute_xform, dirty_rect, is_dirty_rect, layer_xform, send_layer_xform, Point, Size, ONE,
};
use crate::grid::{reposition, windowed};
use crate::layer::{place, Adjustment, Layer, LayerId, LayerKind};
use crate::scalar::{clip, Scalar};
use crate::stroke::Dab;
use crate::tools::{SelectionOp, Tool, Xform};
use std::collections::hash_map::DefaultHasher;
use std::collections::HashMap;
use vstd::arithmetic::mul::*;
use vstd::prelude::*;
use vstd::std_specs::hash::DefaultHasherAdditionalSpecFns;

verus! {

broadcast use vstd::std_specs::hash::group_hash_axioms;

/// The fingerprint of what a layer shows that is made of a definition; `None` for
/// one that is made of pixels.
pub open spec fn shown_print(kind: LayerKind, size: Size) -> Option<u64> {
    match kind {
        LayerKind::Text(t) => Some(DefaultHasher::spec_finish(text_words(t, size))),
        LayerKind::Vector(v) => Some(DefaultHasher::spec_finish(vector_words(v, size))),
        _ => None,
    }
}

/// Whether a layer has to be drawn again: it is made of a definition, and does not
/// show what it showed last.
pub open spec fn stale(l: Layer, size: Size, seen: Map<u64, u64>) -> bool {
    shown_print(l.kind, size) matches Some(fp) && !(seen.dom().contains(l.id.0)
        && seen[l.id.0] == fp)
}

/// The fingerprints after the stale ones of the first `n` layers were redrawn.
pub open spec fn refreshed(
    layers: Seq<Layer>,
    size: Size,
    seen: Map<u64, u64>,
    n: int,
) -> Map<u64, u64>
    decreases n,
{
    if n <= 0 {
        seen
    } else {
        let before = refreshed(layers, size, seen, n - 1);
        let l = layers[n - 1];
        if stale(l, size, before) {
            before.insert(l.id.0, shown_print(l.kind, size)->0)
        } else {
            before
        }
    }
}

fn print_of(kind: &LayerKind, size: Size) -> (r: Option<u64>)
    ensures
        r == shown_print(*kind, size),
{
    match kind {
        LayerKind::Text(t) => Some(text_fingerprint(t, size)),
        LayerKind::Vector(v) => Some(vector_fingerprint(v, size)),
        _ => None,
    }
}

/// The places of the stale ones of the first `n` layers, from the bottom up.
pub open spec fn stale_places(
    layers: Seq<Layer>,
    size: Size,
    seen: Map<u64, u64>,
    n: int,
) -> Seq<usize>
    decreases n,
{
    if n <= 0 {
        Seq::empty()
    } else {
        let before = stale_places(layers, size, seen, n - 1);
        if stale(layers[n - 1], size, refreshed(layers, size, seen, n - 1)) {
            before.push((n - 1) as usize)
        } else {
            before
        }
    }
}

/// Whether a layer is a curves adjustment.
pub open spec fn is_curves(l: Layer) -> bool {
    l.kind matches LayerKind::Adjustment(a) && a is Curves
}

/// The places of the curves among the first `n` layers, from the bottom up.
pub open spec fn curves_places(layers: Seq<Layer>, n: int) -> Seq<usize>
    decreases n,
{
    if n <= 0 {
        Seq::empty()
    } else if is_curves(layers[n - 1]) {
        curves_places(layers, n - 1).push((n - 1) as usize)
    } else {
        curves_places(layers, n - 1)
    }
}

impl PigmentApp {
    /// The fingerprint of the picture, given the codes of the adjustments.
    pub fn layer_fingerprint(&self, codes: &Vec<AdjustCode>) -> (r: u64)
        requires
            codes@.len() == self.doc.layers.layers@.len(),
        ensures
            r == DefaultHasher::spec_finish(
                seq![word(self.spec_active_id().0)] + stack_words(
                    self.doc.layers.layers@,
                    codes@,
                    self.blend_if@,
                    self.clipped_layers@,
                    self.doc.layers.layers@.len() as int,
                ),
            ),
    {
        layer_fingerprint(
            self.active_id(),
            &self.doc.layers.layers,
            codes,
            &self.blend_if,
            &self.clipped_layers,
        )
    }

    /// The layers as they are handed to the compositor, given the codes of the
    /// adjustments.
    pub fn layer_order(&self, codes: &Vec<AdjustCode>) -> (r: Vec<LayerDraw>)
        requires
            codes@.len() == self.doc.layers.layers@.len(),
        ensures
            r@.len() == self.doc.layers.layers@.len(),
            forall|i: int|
                0 <= i < r@.len() ==> draws(
                    self.doc.layers.layers@[i],
                    codes@[i],
                    ranges_of(self.blend_if@, self.doc.layers.layers@[i].id),
                    self.clipped_layers@.contains(self.doc.layers.layers@[i].id.0),
                    #[trigger] r@[i],
                ),
    {
        layer_order(&self.doc.layers.layers, codes, &self.blend_if, &self.clipped_layers)
    }

    /// The places of the text and vector layers that have to be drawn again. They
    /// count as drawn from now on.
    pub fn sync_generated_layers(&mut self) -> (r: Vec<usize>)
        ensures
            ({
                let (layers, size) = (old(self).doc.layers.layers@, old(self).doc.size);
                let n = layers.len() as int;
                &&& r@ == stale_places(layers, size, old(self).gen_fp@, n)
                &&& final(self).gen_fp@ == refreshed(layers, size, old(self).gen_fp@, n)
            }),
            *final(self) == (PigmentApp {
                gen_fp: final(self).gen_fp,
                force_composite: old(self).force_composite || r@.len() > 0,
                ..*old(self)
            }),
    {
        let mut jobs: Vec<usize> = Vec::new();
        let mut k: usize = 0;
        let size: Size = self.doc.size;
        let n: usize = self.doc.layers.layers.len();
        let ghost (layers, seen) = (self.doc.layers.layers@, self.gen_fp@);
        while k < n
            invariant
                k <= n == layers.len(),
                layers == old(self).doc.layers.layers@,
                size == old(self).doc.size,
                *self == (PigmentApp { gen_fp: self.gen_fp, ..*old(self) }),
                self.gen_fp@ == refreshed(layers, size, seen, k as int),
                jobs@ == stale_places(layers, size, seen, k as int),
            decreases n - k,
        {
            let l: &Layer = &self.doc.layers.layers[k];
            let id: LayerId = l.id;
            if let Some(fp) = print_of(&l.kind, size) {
                let known: bool = match self.gen_fp.get(&id.0) {
                    Some(old_fp) => *old_fp == fp,
                    None => false,
                };
                if !known {
                    self.gen_fp.insert(id.0, fp);
                    jobs.push(k);
                }
            }
            k = k + 1;
        }
        if jobs.len() > 0 {
            self.force_composite = true;
        }
        jobs
    }

    /// The places of the curves layers, whose tables have to be uploaded.
    pub fn curves_layers(&self) -> (r: Vec<usize>)
        ensures
            r@ == curves_places(self.doc.layers.layers@, self.doc.layers.layers@.len() as int),
    {
        let mut out: Vec<usize> = Vec::new();
        let mut k: usize = 0;
        while k < self.doc.layers.layers.len()
            invariant
                k <= self.doc.layers.layers@.len(),
                out@ == curves_places(self.doc.layers.layers@, k as int),
            decreases self.doc.layers.layers@.len() - k,
        {
            let curves: bool = match &self.doc.layers.layers[k].kind {
                LayerKind::Adjustment(Adjustment::Curves(_)) => true,
                _ => false,
            };
            if curves {
                out.push(k);
            }
            k = k + 1;
        }
        out
    }

    /// A text or vector layer's pixels, drawn at the canvas origin, moved to where
    /// the layer was moved to.
    pub fn place_generated(&self, id: LayerId, px: &[Scalar]) -> (r: Vec<Scalar>)
        requires
            self.wf(),
            px@.len() >= 4 * (self.doc.size.width * self.doc.size.height),
        ensures
            ({
                let (w, h) = (self.doc.size.width as int, self.doc.size.height as int);
                let (dx, dy) = offset_pixels(self.gen_offset@, id);
                windowed(px@, w, h, r@, w, h, -dx, -dy)
            }),
    {
        proof {
            lemma_mul_nonnegative(self.doc.size.width as int, self.doc.size.height as int);
        }
        let (dx, dy): (i32, i32) = match self.gen_offset.get(&id.0) {
            Some(p) => (to_pixels(p.x), to_pixels(p.y)),
            None => (0, 0),
        };
        let (w, h): (u32, u32) = (self.doc.size.width, self.doc.size.height);
        reposition(px, w, h, w, h, -dx, -dy)
    }

    /// Whether the active layer is made of a definition.
    pub open spec fn active_is_generated(self) -> bool {
        let layers = self.doc.layers.layers@;
        let i = place(layers, self.spec_active_id());
        i < layers.len() && (layers[i].kind is Text || layers[i].kind is Vector)
    }

    fn is_generated_layer(&self) -> (r: bool)
        ensures
            r == self.active_is_generated(),
    {
        match self.doc.layers.position(self.active_id()) {
            Some(i) => match &self.doc.layers.layers[i].kind {
                LayerKind::Text(_) | LayerKind::Vector(_) => true,
                _ => false,
            },
            None => false,
        }
    }

    /// The transformation is baked into the active layer: remember how far a text
    /// or vector layer was moved, so that it stays there when it is drawn again.
    pub fn record_bake(&mut self)
        ensures
            final(self).gen_offset@ == moved_on(*old(self)),
            *final(self) == (PigmentApp { gen_offset: final(self).gen_offset, ..*old(self) }),
    {
        let t: Point = self.xform.translate;
        let zero: Scalar = Scalar::zero();
        if t.x.equals(zero) && t.y.equals(zero) {
            return;
        }
        if !self.is_generated_layer() {
            return;
        }
        let id: LayerId = self.active_id();
        let was: Point = match self.gen_offset.get(&id.0) {
            Some(p) => *p,
            None => Point::zero(),
        };
        self.gen_offset.insert(id.0, was.plus(t));
    }
}

/// What a frame did, besides what the editor itself remembers.
#[derive(Clone, Copy, PartialEq, Eq, Structural, Debug)]
pub struct FrameWork {
    /// A dab was painted.
    pub painted: bool,
    pub wet_begin: bool,
    pub wet_end: bool,
    /// The transformation is baked into the active layer.
    pub bake: bool,
    pub begin_command: bool,
    pub undo: u32,
    pub redo: u32,
}

/// What is drawn at the end of a frame.
pub struct FramePlan {
    /// The layers have to be put together again.
    pub dirty: bool,
    /// The affine of the active layer, while it is dragged.
    pub xform: Option<([Scalar; 4], [Scalar; 2])>,
    pub selection_op: Option<SelectionOp>,
    /// The box that the stroke touched: left, top, width, height.
    pub dirty_rect: [u32; 4],
}

impl FrameWork {
    /// Whether anything happened in the frame.
    pub open spec fn any(self) -> bool {
        self.painted || self.wet_begin || self.wet_end || self.bake || self.begin_command
            || self.undo > 0 || self.redo > 0
    }
}

/// `x` is a layer's affine.
pub open spec fn is_affine(t: Xform, size: Size, x: ([Scalar; 4], [Scalar; 2])) -> bool {
    (x.0@, x.1@) == layer_xform(t.translate, t.scale, size)
}

/// How far layers were moved, after a move of the active one is baked in.
pub open spec fn moved_on(app: PigmentApp) -> Map<u64, Point> {
    let (id, t) = (app.spec_active_id(), app.xform.translate);
    let zero = Scalar { bits: 0 };
    let was = if app.gen_offset@.dom().contains(id.0) {
        app.gen_offset@[id.0]
    } else {
        Point { x: zero, y: zero }
    };
    if !(t.x.same(zero) && t.y.same(zero)) && app.active_is_generated() {
        app.gen_offset@.insert(id.0, was.spec_plus(t))
    } else {
        app.gen_offset@
    }
}

impl PigmentApp {
    /// Whether the layers have to be put together again, after a frame whose
    /// layers have the fingerprint `fp`.
    pub open spec fn is_dirty(self, work: FrameWork, fp: u64) -> bool {
        work.any() || self.xform.active || self.force_composite || fp != self.last_fingerprint
    }

    /// End a frame.
    pub fn end_frame(&mut self, work: FrameWork, fp: u64) -> (r: FramePlan)
        ensures
            r.dirty == old(self).is_dirty(work, fp),
            match r.xform {
                Some(x) => (old(self).xform.active || work.bake) && is_affine(
                    old(self).xform,
                    old(self).doc.size,
                    x,
                ),
                None => !(old(self).xform.active || work.bake),
            },
            r.selection_op == old(self).selection.op_pending,
            is_dirty_rect(old(self).stroke.dirty, old(self).doc.size, r.dirty_rect@),
            final(self).gen_offset@ == (if work.bake {
                moved_on(*old(self))
            } else {
                old(self).gen_offset@
            }),
            *final(self) == (PigmentApp {
                gen_offset: final(self).gen_offset,
                last_fingerprint: fp,
                force_composite: false,
                selection: Selection { op_pending: None, ..old(self).selection },
                ..*old(self)
            }),
    {
        let dirty: bool = work.painted || work.wet_begin || work.wet_end || work.bake
            || self.xform.active || work.begin_command || work.undo > 0 || work.redo > 0
            || self.force_composite || fp != self.last_fingerprint;
        let xform: Option<([Scalar; 4], [Scalar; 2])> = if send_layer_xform(
            self.xform.active,
            work.bake,
        ) {
            Some(compute_xform(self.xform.translate, self.xform.scale, self.doc.size))
        } else {
            None
        };
        if work.bake {
            self.record_bake();
        }
        self.last_fingerprint = fp;
        self.force_composite = false;
        let selection_op: Option<SelectionOp> = self.selection.op_pending;
        self.selection.op_pending = None;
        let rect: [u32; 4] = dirty_rect(self.stroke.dirty, self.doc.size);
        FramePlan { dirty, xform, selection_op, dirty_rect: rect }
    }

    /// How often to undo and redo in this frame: as often as was asked for, and
    /// once for each key that was pressed.
    pub fn take_history(&mut self, command: bool, shift: bool, z: bool, y: bool) -> (r: (u32, u32))
        requires
            old(self).undo_count < u32::MAX,
            old(self).redo_count < u32::MAX - 1,
        ensures
            r.0 == old(self).undo_count + (if command && z && !shift {
                1int
            } else {
                0
            }),
            r.1 == old(self).redo_count + (if command && z && shift {
                1int
            } else {
                0
            }) + (if command && y {
                1int
            } else {
                0
            }),
            *final(self) == (PigmentApp { undo_count: 0, redo_count: 0, ..*old(self) }),
    {
        let (mut undo, mut redo): (u32, u32) = (self.undo_count, self.redo_count);
        self.undo_count = 0;
        self.redo_count = 0;
        if command {
            if z {
                if shift {
                    redo = redo + 1;
                } else {
                    undo = undo + 1;
                }
            }
            if y {
                redo = redo + 1;
            }
        }
        (undo, redo)
    }

    /// Go back by `steps` steps of the history in the next frame.
    pub fn go_back(&mut self, steps: u32)
        requires
            old(self).undo_count + steps <= u32::MAX,
        ensures
            final(self).undo_count == old(self).undo_count + steps,
            *final(self) == (PigmentApp {
                undo_count: final(self).undo_count,
                ..*old(self)
            }),
    {
        self.undo_count = self.undo_count + steps;
    }

    /// Go forward by `steps` steps of the history in the next frame.
    pub fn go_forward(&mut self, steps: u32)
        requires
            old(self).redo_count + steps <= u32::MAX,
        ensures
            final(self).redo_count == old(self).redo_count + steps,
            *final(self) == (PigmentApp {
                redo_count: final(self).redo_count,
                ..*old(self)
            }),
    {
        self.redo_count = self.redo_count + steps;
    }

    /// The dabs as they are painted: a mask is painted white, to reveal, unless
    /// the eraser hides.
    pub fn mask_dabs(&self, dabs: &mut Vec<Dab>)
        ensures
            final(dabs)@.len() == old(dabs)@.len(),
            ({
                let white = self.edit_mask && self.masked_layers@.contains(
                    self.spec_active_id().0,
                ) && !(self.tool is Eraser);
                let one = Scalar { bits: ONE };
                &&& white ==> forall|i: int|
                    0 <= i < old(dabs)@.len() ==> (#[trigger] final(dabs)@[i]).color@ == seq![
                        one,
                        one,
                        one,
                        one,
                    ] && final(dabs)@[i] == (Dab {
                        color: final(dabs)@[i].color,
                        ..old(dabs)@[i]
                    })
                &&& !white ==> final(dabs)@ == old(dabs)@
            }),
    {
        let erase: bool = match self.tool {
            Tool::Eraser => true,
            _ => false,
        };
        if !self.paints_mask() || erase {
            return;
        }
        let one: Scalar = Scalar { bits: ONE };
        let n: usize = dabs.len();
        let mut i: usize = 0;
        while i < n
            invariant
                i <= n == dabs@.len(),
                n == old(dabs)@.len(),
                one == (Scalar { bits: ONE }),
                forall|j: int| i <= j < n ==> #[trigger] dabs@[j] == old(dabs)@[j],
                forall|j: int|
                    0 <= j < i ==> (#[trigger] dabs@[j]).color@ == seq![one, one, one, one]
                        && dabs@[j] == (Dab { color: dabs@[j].color, ..old(dabs)@[j] }),
            decreases n - i,
        {
            let white: [Scalar; 4] = [one, one, one, one];
            assert(white@ =~= seq![one, one, one, one]);
            dabs[i].color = white;
            i = i + 1;
        }
    }
}

/// A frame in which nothing happens leaves the layers as they were put together.
pub proof fn law_idle_frame_is_clean(app: PigmentApp, work: FrameWork, fp: u64)
    requires
        !work.any(),
        !app.xform.active,
    ensures
        ({
            let next = PigmentApp {
                last_fingerprint: fp,
                force_composite: false,
                selection: Selection { op_pending: None, ..app.selection },
                ..app
            };
            !next.is_dirty(work, fp)
        }),
{
}

/// A change of what the layers look like has them put together again.
pub proof fn law_change_is_dirty(app: PigmentApp, work: FrameWork, fp: u64, other: u64)
    requires
        app.last_fingerprint == fp,
        other != fp,
    ensures
        app.is_dirty(work, other),
{
}

/// The whole pixels of a distance, within what a canvas can hold.
pub open spec fn canvas_pixels(d: Scalar) -> int {
    clip(d.cast(d.round_int(), i64::MIN as int, i64::MAX as int), -0x7fff_ffff, 0x7fff_ffff)
}

fn to_pixels(d: Scalar) -> (r: i32)
    ensures
        r == canvas_pixels(d),
        r > i32::MIN,
{
    let v: i64 = d.round_i64();
    if v < -0x7fff_ffff {
        -0x7fff_ffff
    } else if v > 0x7fff_ffff {
        0x7fff_ffff
    } else {
        v as i32
    }
}

/// How many pixels a layer was moved.
pub open spec fn offset_pixels(offsets: Map<u64, Point>, id: LayerId) -> (int, int) {
    if offsets.dom().contains(id.0) {
        (canvas_pixels(offsets[id.0].x), canvas_pixels(offsets[id.0].y))
    } else {
        (0, 0)
    }
}

/// Once the stale layers were drawn, none is stale until something changes.
pub proof fn law_drawn_layers_are_not_stale(
    layers: Seq<Layer>,
    size: Size,
    seen: Map<u64, u64>,
    n: int,
    k: int,
)
    requires
        0 <= k < n <= layers.len(),
        forall|i: int, j: int|
            0 <= i < j < layers.len() ==> (#[trigger] layers[i]).id != (#[trigger] layers[j]).id,
    ensures
        !stale(layers[k], size, refreshed(layers, size, seen, n)),
    decreases n,
{
    if k < n - 1 {
        law_drawn_layers_are_not_stale(layers, size, seen, n - 1, k);
        assert(layers[k].id != layers[n - 1].id);
    }
}

/// So a second pass over unchanged layers draws nothing.
pub proof fn law_second_pass_draws_nothing(
    layers: Seq<Layer>,
    size: Size,
    seen: Map<u64, u64>,
    n: int,
)
    requires
        0 <= n <= layers.len(),
        forall|i: int, j: int|
            0 <= i < j < layers.len() ==> (#[trigger] layers[i]).id != (#[trigger] layers[j]).id,
    ensures
        ({
            let drawn = refreshed(layers, size, seen, layers.len() as int);
            &&& stale_places(layers, size, drawn, n) == Seq::<usize>::empty()
            &&& refreshed(layers, size, drawn, n) == drawn
        }),
    decreases n,
{
    if n > 0 {
        law_second_pass_draws_nothing(layers, size, seen, n - 1);
        law_drawn_layers_are_not_stale(layers, size, seen, layers.len() as int, n - 1);
    }
}

} // verus!
