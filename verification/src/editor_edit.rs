//! Editing pixels: the clipboard, crops and resizes, fills, and the pattern.
//!
//! A layer's pixels come and go as its stored bytes; reading and uploading them is
//! the canvas's part.

use crate::color::{fill_masked, flooded};
use crate::editor::{canvas_fits, PigmentApp};
use crate::geometry::{Size, HALF};
use crate::grid::{
    channel, flip, grid_fits, index_of, mirrored, on_grid, pixel_count, reposition, windowed,
};
use crate::half_float::{f16_bytes_to_f32, f32_to_f16_bytes, packs, unpacks};
use crate::layer::{LayerId, LayerKind};
use crate::mask::{coverage_bounds, covered, Bounds};
use crate::pattern::{capture, coverage, seen, source_over, tile_box, tile_fill, tiled, Pattern};
use crate::retouch::{clear_selected, fade_by, gradient_over};
use crate::scalar::Scalar;
use vstd::arithmetic::mul::*;
use vstd::prelude::*;

verus! {

broadcast use vstd::std_specs::hash::group_hash_axioms;

/// The number of pixels of a canvas.
pub open spec fn area(size: Size) -> int {
    size.width * size.height
}

/// The bytes hold a whole layer of a canvas.
pub open spec fn whole_layer(bytes: Seq<u8>, size: Size) -> bool {
    bytes.len() == 8 * area(size)
}

/// A selection mask covers the canvas, if there is one.
pub open spec fn covers(sel: Option<&[Scalar]>, size: Size) -> bool {
    sel matches Some(s) ==> s@.len() >= area(size)
}

pub proof fn lemma_area(size: Size)
    requires
        canvas_fits(size),
    ensures
        0 <= area(size),
        8 * area(size) <= u32::MAX,
        grid_fits(size.width as int, size.height as int, 4),
        grid_fits(size.width as int, size.height as int, 1),
{
    lemma_mul_nonnegative(size.width as int, size.height as int);
}

/// How an image is resampled.
#[derive(Clone, Copy, PartialEq, Eq, Structural, Debug)]
pub enum Quality {
    Bicubic,
    Lanczos3,
}

/// Narrower images are resampled with the sharper kernel.
pub fn resize_quality(old_width: u32, new_width: u32) -> (r: Quality)
    ensures
        r == (if new_width < old_width {
            Quality::Lanczos3
        } else {
            Quality::Bicubic
        }),
{
    if new_width < old_width {
        Quality::Lanczos3
    } else {
        Quality::Bicubic
    }
}

/// `out` are a layer's bytes after it was mirrored.
pub open spec fn flipped(bytes: Seq<u8>, size: Size, horizontal: bool, out: Seq<u8>) -> bool {
    exists|px: Seq<Scalar>, dst: Seq<Scalar>| #[trigger]
        unpacks(bytes, px) && mirrored(
            px,
            size.width as int,
            size.height as int,
            horizontal,
            dst,
        ) && #[trigger] packs(dst, out)
}

/// Mirror a layer.
pub fn flip_bytes(bytes: &[u8], size: Size, horizontal: bool) -> (out: Vec<u8>)
    requires
        canvas_fits(size),
        whole_layer(bytes@, size),
    ensures
        flipped(bytes@, size, horizontal, out@),
{
    proof {
        lemma_area(size);
    }
    let px: Vec<Scalar> = f16_bytes_to_f32(bytes);
    let dst: Vec<Scalar> = flip(px.as_slice(), size.width, size.height, horizontal);
    let out: Vec<u8> = f32_to_f16_bytes(dst.as_slice());
    assert(unpacks(bytes@, px@) && packs(dst@, out@));
    out
}

/// `out` are the bytes of a window of a layer.
pub open spec fn cut_out(bytes: Seq<u8>, old: Size, new: Size, ox: int, oy: int, out: Seq<u8>) -> bool {
    exists|px: Seq<Scalar>, dst: Seq<Scalar>| #[trigger]
        unpacks(bytes, px) && windowed(
            px,
            old.width as int,
            old.height as int,
            dst,
            new.width as int,
            new.height as int,
            ox,
            oy,
        ) && #[trigger] packs(dst, out)
}

/// Cut the same window out of every layer.
fn cut_layers(
    layers: &Vec<(LayerId, Vec<u8>)>,
    old: Size,
    new: Size,
    ox: i32,
    oy: i32,
) -> (r: Vec<(LayerId, Vec<u8>)>)
    requires
        canvas_fits(old),
        canvas_fits(new),
        forall|i: int| 0 <= i < layers@.len() ==> whole_layer((#[trigger] layers@[i]).1@, old),
    ensures
        r@.len() == layers@.len(),
        forall|i: int|
            0 <= i < r@.len() ==> (#[trigger] r@[i]).0 == layers@[i].0 && cut_out(
                layers@[i].1@,
                old,
                new,
                ox as int,
                oy as int,
                r@[i].1@,
            ),
{
    proof {
        lemma_area(old);
        lemma_area(new);
    }
    let mut out: Vec<(LayerId, Vec<u8>)> = Vec::new();
    let mut i: usize = 0;
    while i < layers.len()
        invariant
            i <= layers@.len(),
            canvas_fits(old),
            canvas_fits(new),
            grid_fits(old.width as int, old.height as int, 4),
            grid_fits(new.width as int, new.height as int, 4),
            forall|k: int|
                0 <= k < layers@.len() ==> whole_layer((#[trigger] layers@[k]).1@, old),
            out@.len() == i,
            forall|j: int|
                0 <= j < i ==> (#[trigger] out@[j]).0 == layers@[j].0 && cut_out(
                    layers@[j].1@,
                    old,
                    new,
                    ox as int,
                    oy as int,
                    out@[j].1@,
                ),
        decreases layers@.len() - i,
    {
        assert(whole_layer(layers@[i as int].1@, old));
        let px: Vec<Scalar> = f16_bytes_to_f32(layers[i].1.as_slice());
        let dst: Vec<Scalar> = reposition(
            px.as_slice(),
            old.width,
            old.height,
            new.width,
            new.height,
            ox,
            oy,
        );
        let bytes: Vec<u8> = f32_to_f16_bytes(dst.as_slice());
        assert(unpacks(layers@[i as int].1@, px@) && packs(dst@, bytes@));
        out.push((layers[i].0, bytes));
        i = i + 1;
    }
    out
}

impl PigmentApp {
    /// The document has a new size; the selection is gone.
    pub open spec fn resized(self, before: PigmentApp, size: Size) -> bool {
        &&& self.doc.size == size
        &&& self.doc.layers == before.doc.layers
        &&& self.doc.active_layer == before.doc.active_layer
        &&& !self.selection.active
        &&& self.selection.drag_start == before.selection.drag_start
        &&& self.selection.op_pending == before.selection.op_pending
        &&& self.selection.base == before.selection.base
        &&& self.selection.mode == before.selection.mode
        &&& self.selection.lasso == before.selection.lasso
        &&& self.selection.feather_radius == before.selection.feather_radius
        &&& self == (PigmentApp {
            doc: self.doc,
            selection: self.selection,
            force_composite: true,
            needs_fit: true,
            ..before
        })
    }

    /// Give the document a new size, once its layers have been fitted to it.
    pub fn set_size(&mut self, size: Size)
        requires
            old(self).wf(),
            canvas_fits(size),
        ensures
            final(self).wf(),
            final(self).resized(*old(self), size),
    {
        self.doc.size = size;
        self.selection.active = false;
        self.force_composite = true;
        self.needs_fit = true;
    }

    /// Enlarge or cut the canvas at its right and lower edge. The layers' bytes
    /// come in and go out by identity.
    pub fn resize_canvas(
        &mut self,
        layers: &Vec<(LayerId, Vec<u8>)>,
        nw: u32,
        nh: u32,
    ) -> (r: Vec<(LayerId, Vec<u8>)>)
        requires
            old(self).wf(),
            canvas_fits(Size { width: nw, height: nh }),
            forall|i: int|
                0 <= i < layers@.len() ==> whole_layer(
                    (#[trigger] layers@[i]).1@,
                    old(self).doc.size,
                ),
        ensures
            final(self).wf(),
            final(self).resized(*old(self), Size { width: nw, height: nh }),
            r@.len() == layers@.len(),
            forall|i: int|
                0 <= i < r@.len() ==> (#[trigger] r@[i]).0 == layers@[i].0 && cut_out(
                    layers@[i].1@,
                    old(self).doc.size,
                    Size { width: nw, height: nh },
                    0,
                    0,
                    r@[i].1@,
                ),
    {
        let size: Size = Size { width: nw, height: nh };
        let r: Vec<(LayerId, Vec<u8>)> = cut_layers(layers, self.doc.size, size, 0, 0);
        self.set_size(size);
        r
    }

    /// The box that a crop keeps, if there is a selection with anything in it.
    pub fn crop_box(&self, sel: &[Scalar]) -> (r: Option<Bounds>)
        requires
            self.wf(),
            sel@.len() >= area(self.doc.size),
        ensures
            ({
                let (w, h) = (self.doc.size.width as int, self.doc.size.height as int);
                match r {
                    Some(b) => self.selection.active && b.encloses(
                        sel@,
                        w,
                        h,
                        Scalar { bits: HALF },
                    ),
                    None => !self.selection.active || forall|x: int, y: int|
                        on_grid(w, h, x, y) ==> !#[trigger] covered(
                            sel@,
                            w,
                            Scalar { bits: HALF },
                            x,
                            y,
                        ),
                }
            }),
    {
        proof {
            lemma_area(self.doc.size);
        }
        if !self.selection.active {
            return None;
        }
        coverage_bounds(
            sel,
            self.doc.size.width,
            self.doc.size.height,
            Scalar { bits: HALF },
        )
    }

    /// Cut the canvas down to a box of it.
    pub fn crop(&mut self, layers: &Vec<(LayerId, Vec<u8>)>, b: Bounds) -> (r: Vec<
        (LayerId, Vec<u8>),
    >)
        requires
            old(self).wf(),
            b.x0 < b.x1 <= old(self).doc.size.width,
            b.y0 < b.y1 <= old(self).doc.size.height,
            forall|i: int|
                0 <= i < layers@.len() ==> whole_layer(
                    (#[trigger] layers@[i]).1@,
                    old(self).doc.size,
                ),
        ensures
            final(self).wf(),
            ({
                let size = Size {
                    width: (b.x1 - b.x0) as u32,
                    height: (b.y1 - b.y0) as u32,
                };
                &&& final(self).resized(*old(self), size)
                &&& r@.len() == layers@.len()
                &&& forall|i: int|
                    0 <= i < r@.len() ==> (#[trigger] r@[i]).0 == layers@[i].0 && cut_out(
                        layers@[i].1@,
                        old(self).doc.size,
                        size,
                        b.x0 as int,
                        b.y0 as int,
                        r@[i].1@,
                    )
            }),
    {
        let old: Size = self.doc.size;
        let size: Size = Size { width: b.x1 - b.x0, height: b.y1 - b.y0 };
        proof {
            lemma_crop_fits(old, size);
            lemma_side_fits(old.width as int, old.height as int);
            lemma_side_fits(old.height as int, old.width as int);
            lemma_mul_is_commutative(old.width as int, old.height as int);
        }
        let r: Vec<(LayerId, Vec<u8>)> = cut_layers(layers, old, size, b.x0 as i32, b.y0 as i32);
        self.set_size(size);
        r
    }
}

proof fn lemma_crop_fits(old: Size, new: Size)
    requires
        canvas_fits(old),
        new.width <= old.width,
        new.height <= old.height,
    ensures
        canvas_fits(new),
{
    let (a, b, c, d) = (
        old.width as int,
        old.height as int,
        new.width as int,
        new.height as int,
    );
    assert(c * d <= a * b) by (nonlinear_arith)
        requires
            0 <= c <= a,
            0 <= d <= b,
    ;
}

/// A canvas with pixels has sides that fit a signed coordinate.
proof fn lemma_side_fits(w: int, h: int)
    requires
        w >= 0,
        h >= 1,
        w * h * 8 <= u32::MAX,
    ensures
        w <= i32::MAX,
{
    assert(w <= w * h) by (nonlinear_arith)
        requires
            w >= 0,
            h >= 1,
    ;
}

impl PigmentApp {
    /// `px` is what a copy takes of a layer: its pixels, faded by the selection
    /// if there is one.
    pub open spec fn copies(
        self,
        bytes: Seq<u8>,
        sel: Option<Seq<Scalar>>,
        px: Seq<Scalar>,
    ) -> bool {
        exists|whole: Seq<Scalar>| #[trigger]
            unpacks(bytes, whole) && match sel {
                Some(s) if self.selection.active => {
                    &&& px.len() == whole.len()
                    &&& forall|k: int|
                        0 <= k < px.len() ==> #[trigger] px[k] == whole[k].product(s[k / 4])
                },
                _ => px == whole,
            }
    }

    /// Copy the active layer, given as its bytes, to the clipboard. Nothing is
    /// copied of a layer that cannot be read.
    pub fn copy_selection(&mut self, bytes: Option<&[u8]>, sel: Option<&[Scalar]>)
        requires
            old(self).wf(),
            bytes matches Some(b) ==> whole_layer(b@, old(self).doc.size),
            covers(sel, old(self).doc.size),
        ensures
            final(self).wf(),
            match bytes {
                None => *final(self) == *old(self),
                Some(b) => {
                    &&& final(self).clipboard matches Some(px) && old(self).copies(
                        b@,
                        seen(sel),
                        px@,
                    )
                    &&& *final(self) == (PigmentApp {
                        clipboard: final(self).clipboard,
                        clipboard_size: old(self).doc.size,
                        ..*old(self)
                    })
                },
            },
    {
        let b: &[u8] = match bytes {
            Some(b) => b,
            None => {
                return;
            },
        };
        proof {
            lemma_area(self.doc.size);
        }
        let mut px: Vec<Scalar> = f16_bytes_to_f32(b);
        let ghost whole = px@;
        if self.selection.active {
            if let Some(s) = sel {
                let n: usize = pixel_count(self.doc.size.width, self.doc.size.height);
                fade_by(px.as_mut_slice(), s, n);
            }
        }
        assert(unpacks(b@, whole));
        self.clipboard = Some(px);
        self.clipboard_size = self.doc.size;
    }

    /// `out` are a layer's bytes after a cut.
    pub open spec fn cut(bytes: Seq<u8>, sel: Seq<Scalar>, out: Seq<u8>) -> bool {
        exists|px: Seq<Scalar>, left: Seq<Scalar>| #[trigger]
            unpacks(bytes, px) && #[trigger] packs(left, out) && left.len() == px.len()
                && forall|k: int|
                0 <= k < px.len() ==> #[trigger] left[k] == (if (Scalar { bits: HALF }).less(
                    sel[k / 4],
                ) {
                    Scalar { bits: 0 }
                } else {
                    px[k]
                })
    }

    /// Clear what is selected of the active layer, once it has been copied.
    /// Nothing is cut where there is no selection.
    pub fn cut_selection(&mut self, bytes: Option<&[u8]>, sel: Option<&[Scalar]>) -> (r: Option<
        Vec<u8>,
    >)
        requires
            old(self).wf(),
            bytes matches Some(b) ==> whole_layer(b@, old(self).doc.size),
            covers(sel, old(self).doc.size),
        ensures
            *final(self) == (PigmentApp {
                force_composite: old(self).force_composite || old(self).selection.active,
                ..*old(self)
            }),
            match (bytes, sel) {
                (Some(b), Some(s)) if old(self).selection.active => r matches Some(out)
                    && PigmentApp::cut(b@, s@, out@),
                _ => r is None,
            },
    {
        if !self.selection.active {
            return None;
        }
        self.force_composite = true;
        match (bytes, sel) {
            (Some(b), Some(s)) => {
                proof {
                    lemma_area(self.doc.size);
                }
                let mut px: Vec<Scalar> = f16_bytes_to_f32(b);
                let ghost whole = px@;
                let n: usize = pixel_count(self.doc.size.width, self.doc.size.height);
                clear_selected(px.as_mut_slice(), s, n);
                let out: Vec<u8> = f32_to_f16_bytes(px.as_slice());
                assert(unpacks(b@, whole) && packs(px@, out@));
                Some(out)
            },
            _ => None,
        }
    }

    /// `bytes` are what a paste uploads: the clipboard, fitted to the canvas.
    pub open spec fn pastes(self, bytes: Seq<u8>) -> bool {
        self.clipboard matches Some(cb) && if self.clipboard_size == self.doc.size {
            packs(cb@, bytes)
        } else {
            exists|dst: Seq<Scalar>| #[trigger]
                packs(dst, bytes) && windowed(
                    cb@,
                    self.clipboard_size.width as int,
                    self.clipboard_size.height as int,
                    dst,
                    self.doc.size.width as int,
                    self.doc.size.height as int,
                    0,
                    0,
                )
        }
    }

    /// Paste the clipboard, if it holds anything, as a layer of its own.
    pub fn paste(&mut self) -> (r: Option<(LayerId, Vec<u8>)>)
        requires
            old(self).wf(),
            old(self).doc.layers.next_id < u64::MAX,
        ensures
            final(self).wf(),
            match r {
                None => old(self).clipboard is None && *final(self) == *old(self),
                Some((id, bytes)) => {
                    &&& old(self).pastes(bytes@)
                    &&& id == LayerId(old(self).doc.layers.next_id)
                    &&& final(self).topped(
                        PigmentApp { force_composite: true, ..*old(self) },
                        "Pasted"@,
                        LayerKind::Raster,
                    )
                },
            },
    {
        let bytes: Vec<u8> = match &self.clipboard {
            None => {
                return None;
            },
            Some(cb) => if self.clipboard_size == self.doc.size {
                f32_to_f16_bytes(cb.as_slice())
            } else {
                proof {
                    lemma_area(self.doc.size);
                    lemma_area(self.clipboard_size);
                }
                let dst: Vec<Scalar> = reposition(
                    cb.as_slice(),
                    self.clipboard_size.width,
                    self.clipboard_size.height,
                    self.doc.size.width,
                    self.doc.size.height,
                    0,
                    0,
                );
                f32_to_f16_bytes(dst.as_slice())
            },
        };
        self.force_composite = true;
        let id: LayerId = self.add_layer("Pasted".to_owned(), LayerKind::Raster);
        Some((id, bytes))
    }

    /// `out` are a layer's bytes under a rendered gradient.
    pub open spec fn graded(
        bytes: Seq<u8>,
        grad: Seq<Scalar>,
        sel: Option<Seq<Scalar>>,
        out: Seq<u8>,
    ) -> bool {
        exists|px: Seq<Scalar>, over: Seq<Scalar>| #[trigger]
            unpacks(bytes, px) && #[trigger] packs(over, out) && over.len() == px.len()
                && forall|k: int|
                0 <= k < px.len() ==> #[trigger] over[k] == source_over(
                    grad[k],
                    grad[k - k % 4 + 3],
                    coverage(sel, k / 4),
                    px[k],
                )
    }

    /// Composite a rendered gradient over the active layer, within the selection.
    pub fn do_gradient(&mut self, bytes: &[u8], grad: &[Scalar], sel: Option<&[Scalar]>) -> (out:
        Vec<u8>)
        requires
            old(self).wf(),
            whole_layer(bytes@, old(self).doc.size),
            grad@.len() >= 4 * area(old(self).doc.size),
            covers(sel, old(self).doc.size),
        ensures
            PigmentApp::graded(bytes@, grad@, seen(sel), out@),
            *final(self) == (PigmentApp { force_composite: true, ..*old(self) }),
    {
        proof {
            lemma_area(self.doc.size);
        }
        let mut base: Vec<Scalar> = f16_bytes_to_f32(bytes);
        let ghost px = base@;
        let n: usize = pixel_count(self.doc.size.width, self.doc.size.height);
        gradient_over(base.as_mut_slice(), grad, sel, n);
        let out: Vec<u8> = f32_to_f16_bytes(base.as_slice());
        assert(unpacks(bytes@, px) && packs(base@, out@));
        self.force_composite = true;
        out
    }

    /// Capture a pattern from the active layer, given as its bytes. Nothing
    /// changes if it cannot be read, or if the selection is empty.
    pub fn define_pattern(&mut self, bytes: Option<&[u8]>, sel: Option<&[Scalar]>)
        requires
            old(self).wf(),
            bytes matches Some(b) ==> whole_layer(b@, old(self).doc.size),
            covers(sel, old(self).doc.size),
        ensures
            final(self).wf(),
            ({
                let (w, h) = (old(self).doc.size.width as int, old(self).doc.size.height as int);
                let empty = sel matches Some(s) && forall|x: int, y: int|
                    on_grid(w, h, x, y) ==> !#[trigger] covered(
                        s@,
                        w,
                        Scalar { bits: 0 },
                        x,
                        y,
                    );
                if bytes is None || empty {
                    *final(self) == *old(self)
                } else {
                    &&& final(self).pattern matches Some(p) && exists|px: Seq<Scalar>, b: Bounds|
                        #[trigger]
                        unpacks(bytes->0@, px) && #[trigger] tile_box(seen(sel), w, h, b)
                            && p.captures(px, w, seen(sel), b)
                    &&& *final(self) == (PigmentApp {
                        pattern: final(self).pattern,
                        ..*old(self)
                    })
                }
            }),
    {
        let b: &[u8] = match bytes {
            Some(b) => b,
            None => {
                return;
            },
        };
        proof {
            lemma_area(self.doc.size);
        }
        let px: Vec<Scalar> = f16_bytes_to_f32(b);
        if let Some(p) = capture(px.as_slice(), self.doc.size.width, self.doc.size.height, sel) {
            proof {
                let (w, h) = (self.doc.size.width as int, self.doc.size.height as int);
                let tile = choose|tile: Bounds| #[trigger]
                    tile_box(seen(sel), w, h, tile) && p.captures(px@, w, seen(sel), tile);
                assert(unpacks(b@, px@) && tile_box(seen(sel), w, h, tile) && p.captures(
                    px@,
                    w,
                    seen(sel),
                    tile,
                ));
            }
            self.pattern = Some(p);
        }
    }

    /// `out` are a layer's bytes after a fill with a pattern.
    pub open spec fn patterned(
        self,
        p: Pattern,
        bytes: Seq<u8>,
        sel: Option<Seq<Scalar>>,
        out: Seq<u8>,
    ) -> bool {
        let (w, h) = (self.doc.size.width as int, self.doc.size.height as int);
        exists|px: Seq<Scalar>, over: Seq<Scalar>| #[trigger]
            unpacks(bytes, px) && #[trigger] packs(over, out) && over.len() == px.len()
                && forall|x: int, y: int, c: int|
                on_grid(w, h, x, y) && 0 <= c < 4 ==> #[trigger] channel(over, w, x, y, c)
                    == tiled(
                    channel(px, w, x, y, c),
                    p,
                    self.pattern_scale,
                    self.pattern_offset,
                    coverage(sel, index_of(w, x, y)),
                    x,
                    y,
                    c,
                )
    }

    /// Fill the active layer with the pattern, within the selection. Nothing is
    /// filled without a pattern.
    pub fn do_pattern_fill(&mut self, bytes: &[u8], sel: Option<&[Scalar]>) -> (r: Option<Vec<u8>>)
        requires
            old(self).wf(),
            whole_layer(bytes@, old(self).doc.size),
            covers(sel, old(self).doc.size),
            old(self).pattern matches Some(p) ==> !p.is_empty(),
        ensures
            match old(self).pattern {
                None => r is None && *final(self) == *old(self),
                Some(p) => {
                    &&& r matches Some(out) && old(self).patterned(p, bytes@, seen(sel), out@)
                    &&& *final(self) == (PigmentApp { force_composite: true, ..*old(self) })
                },
            },
    {
        let out: Vec<u8> = match &self.pattern {
            None => {
                return None;
            },
            Some(p) => {
                proof {
                    lemma_area(self.doc.size);
                }
                let mut base: Vec<Scalar> = f16_bytes_to_f32(bytes);
                let ghost px = base@;
                tile_fill(
                    base.as_mut_slice(),
                    p,
                    self.doc.size.width,
                    self.doc.size.height,
                    self.pattern_scale,
                    self.pattern_offset,
                    sel,
                );
                let out: Vec<u8> = f32_to_f16_bytes(base.as_slice());
                assert(unpacks(bytes@, px) && packs(base@, out@));
                out
            },
        };
        self.force_composite = true;
        Some(out)
    }

    /// `out` are a layer's bytes after a bucket fill.
    pub open spec fn filled(
        bytes: Seq<u8>,
        mask: Seq<bool>,
        sel: Option<Seq<Scalar>>,
        fill: Seq<Scalar>,
        out: Seq<u8>,
    ) -> bool {
        exists|px: Seq<Scalar>, over: Seq<Scalar>| #[trigger]
            unpacks(bytes, px) && #[trigger] packs(over, out) && over.len() == px.len()
                && forall|k: int|
                0 <= k < px.len() ==> #[trigger] over[k] == (if flooded(mask, sel, k / 4) {
                    fill[k % 4]
                } else {
                    px[k]
                })
    }

    /// Fill the pixels of the active layer that a flood reached, within the
    /// selection.
    pub fn do_fill(
        &mut self,
        bytes: &[u8],
        mask: &[bool],
        sel: Option<&[Scalar]>,
        fill: [Scalar; 4],
    ) -> (out: Vec<u8>)
        requires
            old(self).wf(),
            whole_layer(bytes@, old(self).doc.size),
            mask@.len() == area(old(self).doc.size),
            covers(sel, old(self).doc.size),
        ensures
            PigmentApp::filled(bytes@, mask@, seen(sel), fill@, out@),
            *final(self) == (PigmentApp { force_composite: true, ..*old(self) }),
    {
        proof {
            lemma_area(self.doc.size);
        }
        let mut px: Vec<Scalar> = f16_bytes_to_f32(bytes);
        let ghost whole = px@;
        fill_masked(px.as_mut_slice(), mask, sel, fill);
        let out: Vec<u8> = f32_to_f16_bytes(px.as_slice());
        assert(unpacks(bytes@, whole) && packs(px@, out@));
        self.force_composite = true;
        out
    }
}

} // verus!
