//! Opening, saving and uploading documents.

use crate::color::{rgba8_to_f16_bytes, stores_rgba8};
use crate::comps::{
    comp_to_meta, law_saved_comp_returns, meta_to_comp, remapped, saved, LayerAttrs, LayerComp,
    LayerCompMeta,
};
use crate::document::{
    filters_in, filters_of, law_new_ids_are_those_of_the_layers, law_saved_layers_return,
    load_layers, loads_layer, new_ids, save_layers, saves_layer, stage_pixels, styles_in, LayerMeta,
    Loaded,
};
use crate::editor::{canvas_fits, PendingUpload, PigmentApp};
use crate::geometry::Size;
use crate::grid::pixel_count;
use crate::half_float::{f32_to_f16_bytes, packs};
use crate::layer::{
    lemma_place, place, BlendMode, Document, Layer, LayerId, LayerKind, LayerStack,
};
use crate::retouch::{premultiplied, to_premultiplied};
use crate::scalar::Scalar;
use crate::smart_filter::{in_range, passes, SmartFilterStack, SmartPass};
use std::collections::HashMap;
use vstd::prelude::*;

verus! {

broadcast use vstd::std_specs::hash::group_hash_axioms;

/// A document file, without its pixels.
pub struct DocMeta {
    pub width: u32,
    pub height: u32,
    pub layers: Vec<LayerMeta>,
    pub comps: Vec<LayerCompMeta>,
}

/// A layer of a Photoshop document, its pixels with eight bits per channel in display
/// space.
pub struct PsdLayer {
    pub name: String,
    pub opacity: Scalar,
    pub visible: bool,
    pub blend: u32,
    pub rgba8: Vec<u8>,
}

/// `bytes` store straight pixels in linear light, premultiplied.
pub open spec fn stores_straight(px: Seq<Scalar>, bytes: Seq<u8>) -> bool {
    exists|prem: Seq<Scalar>| #[trigger]
        packs(prem, bytes) && premultiplied(px, px.len() as int / 4, prem)
}

impl PigmentApp {
    /// The document is new, with one layer.
    pub open spec fn shows_one_layer(self, size: Size) -> bool {
        &&& self.doc.wf()
        &&& self.doc.size == size
        &&& self.doc.layers.next_id == 2
        &&& self.doc.layers.layers@.len() == 1
        &&& self.doc.layers.layers@[0].fresh(LayerId(1), "Background"@, LayerKind::Raster)
        &&& self.doc.active_layer == Some(LayerId(1))
        &&& self.background_id == LayerId(1)
        &&& self.needs_fit
    }

    /// One layer is staged in a document of its own.
    pub open spec fn stages_image(self, size: Size, bytes: Seq<u8>) -> bool {
        self.pending matches Some(p) && p.size == size && p.layers@.len() == 1 && p.layers@[0].0
            == LayerId(1) && p.layers@[0].1@ == bytes
    }

    /// Show one layer, given as stored bytes, in a document of its own.
    fn show_image(&mut self, size: Size, bytes: Vec<u8>)
        requires
            old(self).wf(),
            canvas_fits(size),
        ensures
            final(self).wf(),
            final(self).shows_one_layer(size),
            final(self).stages_image(size, bytes@),
            *final(self) == (PigmentApp {
                doc: final(self).doc,
                background_id: final(self).background_id,
                pending: final(self).pending,
                needs_fit: true,
                ..*old(self)
            }),
    {
        self.doc = Document::new(size);
        self.background_id = self.doc.layers.layers[0].id;
        let mut staged: Vec<(LayerId, Vec<u8>)> = Vec::new();
        staged.push((self.background_id, bytes));
        self.pending = Some(PendingUpload { size, layers: staged });
        self.needs_fit = true;
    }

    /// Open an image, eight bits per channel in display space, in a document of its
    /// own.
    pub fn open_image<F: Fn(Scalar) -> Scalar>(&mut self, size: Size, rgba8: &[u8], linear: &F)
        requires
            old(self).wf(),
            canvas_fits(size),
            forall|x: Scalar| #[trigger] call_requires(*linear, (x,)),
        ensures
            final(self).wf(),
            final(self).shows_one_layer(size),
            exists|bytes: Seq<u8>| #[trigger]
                final(self).stages_image(size, bytes) && stores_rgba8(*linear, rgba8@, bytes),
            *final(self) == (PigmentApp {
                doc: final(self).doc,
                background_id: final(self).background_id,
                pending: final(self).pending,
                needs_fit: true,
                ..*old(self)
            }),
    {
        let bytes: Vec<u8> = rgba8_to_f16_bytes(rgba8, linear);
        self.show_image(size, bytes);
    }

    /// Open a high-dynamic-range image, given as straight pixels in linear light. No
    /// layer has a mask then. An incomplete last pixel is left out.
    pub fn open_exr(&mut self, size: Size, px: &[Scalar])
        requires
            old(self).wf(),
            canvas_fits(size),
        ensures
            final(self).wf(),
            final(self).shows_one_layer(size),
            exists|bytes: Seq<u8>| #[trigger]
                final(self).stages_image(size, bytes) && stores_straight(px@, bytes),
            final(self).masked_layers@ == Set::<u64>::empty(),
            *final(self) == (PigmentApp {
                doc: final(self).doc,
                background_id: final(self).background_id,
                pending: final(self).pending,
                needs_fit: true,
                masked_layers: final(self).masked_layers,
                ..*old(self)
            }),
    {
        let n: usize = px.len() / 4;
        let prem: Vec<Scalar> = to_premultiplied(px, n);
        let bytes: Vec<u8> = f32_to_f16_bytes(prem.as_slice());
        assert(stores_straight(px@, bytes@));
        self.show_image(size, bytes);
        self.masked_layers.clear();
        assert(self.stages_image(size, bytes@));
    }

    /// The first and the last layer are the background and the active one.
    pub open spec fn ends_are_set(self) -> bool {
        let layers = self.doc.layers.layers@;
        &&& self.background_id == (if layers.len() > 0 {
            layers[0].id
        } else {
            LayerId(0)
        })
        &&& self.doc.active_layer == (if layers.len() > 0 {
            Some(layers.last().id)
        } else {
            None
        })
    }

    /// Take over a stack of layers as the document.
    fn set_layers(&mut self, size: Size, stack: LayerStack)
        requires
            stack.wf(),
        ensures
            final(self).doc.size == size,
            final(self).doc.layers == stack,
            final(self).ends_are_set(),
            *final(self) == (PigmentApp {
                doc: final(self).doc,
                background_id: final(self).background_id,
                ..*old(self)
            }),
    {
        let n: usize = stack.layers.len();
        let background_id: LayerId = if n > 0 {
            stack.layers[0].id
        } else {
            LayerId(0)
        };
        let active_layer: Option<LayerId> = if n > 0 {
            Some(stack.layers[n - 1].id)
        } else {
            None
        };
        self.background_id = background_id;
        self.doc = Document { size, layers: stack, active_layer };
    }

    /// The editor shows the layers of a document file, under new identities, with
    /// their styles and filters, and has its comps. No other identity has styles or
    /// filters, so a layer that comes later starts without any.
    pub open spec fn shows_document(self, meta: DocMeta) -> bool {
        &&& self.doc.size == (Size { width: meta.width, height: meta.height })
        &&& self.doc.layers.layers@.len() == meta.layers@.len()
        &&& self.doc.layers.next_id == 1 + meta.layers@.len()
        &&& forall|id: LayerId|
            id.0 < 1 || id.0 > meta.layers@.len() ==> (#[trigger] self.styles.of(id)).none()
        &&& forall|k: u64|
            k < 1 || k > meta.layers@.len() ==> !#[trigger] self.smart_filters@.dom().contains(k)
        &&& forall|i: int|
            0 <= i < meta.layers@.len() ==> {
                let id = LayerId((1 + i) as u64);
                &&& loads_layer(meta.layers@[i], id, #[trigger] self.doc.layers.layers@[i])
                &&& self.styles.of(id) == styles_in(meta.layers@[i])
                &&& filters_of(self.smart_filters@, id) == filters_in(meta.layers@[i])
            }
        &&& self.comps@.len() == meta.comps@.len()
        &&& forall|i: int|
            0 <= i < meta.comps@.len() ==> (#[trigger] self.comps@[i]).name@
                == meta.comps@[i].name@ && self.comps@[i].entries@ == remapped(
                meta.comps@[i].entries@,
                new_ids(meta.layers@, 1, meta.layers@.len() as int),
            )
    }

    /// A document file holds the layers with their styles and filters, and the
    /// comps.
    pub open spec fn saves_document(self, meta: DocMeta) -> bool {
        let layers = self.doc.layers.layers@;
        &&& meta.width == self.doc.size.width
        &&& meta.height == self.doc.size.height
        &&& meta.layers@.len() == layers.len()
        &&& forall|i: int|
            0 <= i < meta.layers@.len() ==> saves_layer(
                layers[i],
                self.styles.of(layers[i].id),
                filters_of(self.smart_filters@, layers[i].id),
                #[trigger] meta.layers@[i],
            )
        &&& meta.comps@.len() == self.comps@.len()
        &&& forall|i: int|
            0 <= i < meta.comps@.len() ==> (#[trigger] meta.comps@[i]).name@
                == self.comps@[i].name@ && meta.comps@[i].entries@
                == self.comps@[i].entries@.map_values(|e: (LayerId, LayerAttrs)| saved(e))
    }

    /// Open a document file, whose pixels come in the order of its layers.
    pub fn open_pigment(&mut self, meta: &DocMeta, pixels: Vec<Vec<u8>>)
        requires
            old(self).wf(),
            canvas_fits(Size { width: meta.width, height: meta.height }),
            meta.layers@.len() < u64::MAX,
        ensures
            final(self).wf(),
            final(self).shows_document(*meta),
            final(self).ends_are_set(),
            final(self).pending matches Some(p) && p.size == final(self).doc.size
                && p.layers@.len() == meta.layers@.len() && forall|i: int|
                0 <= i < p.layers@.len() ==> (#[trigger] p.layers@[i]).0 == LayerId(
                    (1 + i) as u64,
                ) && p.layers@[i].1@ == (if i < pixels@.len() {
                    pixels@[i]@
                } else {
                    Seq::<u8>::empty()
                }),
            *final(self) == (PigmentApp {
                doc: final(self).doc,
                background_id: final(self).background_id,
                pending: final(self).pending,
                needs_fit: true,
                force_composite: true,
                styles: final(self).styles,
                smart_filters: final(self).smart_filters,
                comps: final(self).comps,
                ..*old(self)
            }),
    {
        let size: Size = Size { width: meta.width, height: meta.height };
        let loaded: Loaded = load_layers(&meta.layers, 1);
        let staged: Vec<(LayerId, Vec<u8>)> = stage_pixels(&loaded.stack.layers, pixels);
        let comps: Vec<LayerComp> = load_comps(&meta.comps, &loaded.id_map);
        self.set_layers(size, loaded.stack);
        self.styles = loaded.styles;
        self.smart_filters = loaded.smart;
        self.comps = comps;
        self.pending = Some(PendingUpload { size, layers: staged });
        self.needs_fit = true;
        self.force_composite = true;
    }

    /// The document as it is saved, without its pixels.
    pub fn doc_meta(&self) -> (r: DocMeta)
        ensures
            self.saves_document(r),
    {
        let mut comps: Vec<LayerCompMeta> = Vec::new();
        let mut i: usize = 0;
        while i < self.comps.len()
            invariant
                i <= self.comps@.len(),
                comps@.len() == i,
                forall|j: int|
                    0 <= j < i ==> (#[trigger] comps@[j]).name@ == self.comps@[j].name@
                        && comps@[j].entries@ == self.comps@[j].entries@.map_values(
                        |e: (LayerId, LayerAttrs)| saved(e),
                    ),
            decreases self.comps@.len() - i,
        {
            comps.push(comp_to_meta(&self.comps[i]));
            i = i + 1;
        }
        DocMeta {
            width: self.doc.size.width,
            height: self.doc.size.height,
            layers: save_layers(&self.doc.layers.layers, &self.styles, &self.smart_filters),
            comps,
        }
    }
}

fn load_comps(meta: &Vec<LayerCompMeta>, id_map: &HashMap<u64, LayerId>) -> (r: Vec<LayerComp>)
    ensures
        r@.len() == meta@.len(),
        forall|i: int|
            0 <= i < r@.len() ==> (#[trigger] r@[i]).name@ == meta@[i].name@ && r@[i].entries@
                == remapped(meta@[i].entries@, id_map@),
{
    let mut out: Vec<LayerComp> = Vec::new();
    let mut i: usize = 0;
    while i < meta.len()
        invariant
            i <= meta@.len(),
            out@.len() == i,
            forall|j: int|
                0 <= j < i ==> (#[trigger] out@[j]).name@ == meta@[j].name@ && out@[j].entries@
                    == remapped(meta@[j].entries@, id_map@),
        decreases meta@.len() - i,
    {
        out.push(meta_to_comp(&meta[i], id_map));
        i = i + 1;
    }
    out
}

/// `l` is a layer of a Photoshop document, under an identity of its own.
pub open spec fn imports_layer(p: PsdLayer, id: LayerId, l: Layer) -> bool {
    &&& l.id == id
    &&& l.name@ == p.name@
    &&& l.opacity == p.opacity
    &&& l.visible == p.visible
    &&& l.blend.shader == p.blend
    &&& l.kind is Raster
}

/// The layers and staged bytes are those of a Photoshop document.
pub open spec fn imported<F: Fn(Scalar) -> Scalar>(
    linear: F,
    psd: Seq<PsdLayer>,
    layers: Seq<Layer>,
    staged: Seq<(LayerId, Vec<u8>)>,
) -> bool {
    &&& layers.len() == psd.len()
    &&& staged.len() == psd.len()
    &&& forall|i: int|
        0 <= i < psd.len() ==> imports_layer(psd[i], LayerId((1 + i) as u64), #[trigger] layers[i])
    &&& forall|i: int|
        0 <= i < psd.len() ==> (#[trigger] staged[i]).0 == LayerId((1 + i) as u64) && stores_rgba8(
            linear,
            psd[i].rgba8@,
            staged[i].1@,
        )
}

/// The document is an empty background, and its bytes are staged.
pub open spec fn left_blank(doc: Document, staged: Seq<(LayerId, Vec<u8>)>) -> bool {
    &&& doc.layers.layers@.len() == 1
    &&& doc.layers.layers@[0].fresh(LayerId(1), "Background"@, LayerKind::Raster)
    &&& staged.len() == 1
    &&& staged[0].0 == LayerId(1)
    &&& staged[0].1@.len() == 8 * (doc.size.width * doc.size.height)
    &&& forall|k: int| 0 <= k < staged[0].1@.len() ==> #[trigger] staged[0].1@[k] == 0
}

/// A length that is at least 1.
pub open spec fn at_least_one(n: u32) -> u32 {
    if n == 0 {
        1
    } else {
        n
    }
}

/// The layers of a Photoshop document and their bytes.
fn import_layers<F: Fn(Scalar) -> Scalar>(layers: Vec<PsdLayer>, linear: &F) -> (r: (
    LayerStack,
    Vec<(LayerId, Vec<u8>)>,
))
    requires
        layers@.len() < u64::MAX,
        forall|x: Scalar| #[trigger] call_requires(*linear, (x,)),
    ensures
        r.0.wf(),
        r.0.next_id == 1 + layers@.len(),
        imported(*linear, layers@, r.0.layers@, r.1@),
{
    let ghost all = layers@;
    let mut rest: Vec<PsdLayer> = layers;
    let mut stack: LayerStack = LayerStack { layers: Vec::new(), next_id: 1 };
    let mut staged: Vec<(LayerId, Vec<u8>)> = Vec::new();
    let n: usize = rest.len();
    let mut i: usize = 0;
    assert(rest@ =~= all.skip(0));
    while i < n
        invariant
            i <= n == all.len(),
            n < u64::MAX,
            forall|x: Scalar| #[trigger] call_requires(*linear, (x,)),
            rest@ == all.skip(i as int),
            stack.wf(),
            stack.next_id == 1 + i,
            stack.layers@.len() == i,
            staged@.len() == i,
            imported(*linear, all.take(i as int), stack.layers@, staged@),
        decreases n - i,
    {
        let p: PsdLayer = rest.remove(0);
        assert(rest@ =~= all.skip(i + 1));
        let id: LayerId = stack.alloc_id();
        let mut l: Layer = Layer::raster(id, p.name);
        l.opacity = p.opacity;
        l.visible = p.visible;
        l.blend = BlendMode::from_shader_id(p.blend);
        stack.layers.push(l);
        staged.push((id, rgba8_to_f16_bytes(p.rgba8.as_slice(), linear)));
        assert(imported(*linear, all.take(i + 1), stack.layers@, staged@));
        i = i + 1;
    }
    assert(all.take(i as int) =~= all);
    (stack, staged)
}

impl PigmentApp {
    /// Open a Photoshop document. One without layers gets an empty background.
    pub fn open_psd<F: Fn(Scalar) -> Scalar>(
        &mut self,
        width: u32,
        height: u32,
        layers: Vec<PsdLayer>,
        linear: &F,
    )
        requires
            old(self).wf(),
            forall|x: Scalar| #[trigger] call_requires(*linear, (x,)),
            canvas_fits(Size { width: at_least_one(width), height: at_least_one(height) }),
            layers@.len() < u64::MAX,
        ensures
            final(self).wf(),
            final(self).doc.size == (Size {
                width: at_least_one(width),
                height: at_least_one(height),
            }),
            final(self).ends_are_set(),
            final(self).doc.layers.next_id == (if layers@.len() > 0 {
                1 + layers@.len()
            } else {
                2
            }),
            final(self).masked_layers@ == Set::<u64>::empty(),
            final(self).pending matches Some(p) && p.size == final(self).doc.size && (if layers@.len()
                > 0 {
                imported(*linear, layers@, final(self).doc.layers.layers@, p.layers@)
            } else {
                left_blank(final(self).doc, p.layers@)
            }),
            *final(self) == (PigmentApp {
                doc: final(self).doc,
                background_id: final(self).background_id,
                pending: final(self).pending,
                needs_fit: true,
                masked_layers: final(self).masked_layers,
                ..*old(self)
            }),
    {
        let size: Size = Size {
            width: if width == 0 {
                1
            } else {
                width
            },
            height: if height == 0 {
                1
            } else {
                height
            },
        };
        let (mut stack, mut staged): (LayerStack, Vec<(LayerId, Vec<u8>)>) = import_layers(
            layers,
            linear,
        );
        if staged.len() == 0 {
            let id: LayerId = stack.add_raster("Background".to_owned());
            proof {
                assert(size.width * size.height >= 0) by (nonlinear_arith);
            }
            let n: usize = 8 * pixel_count(size.width, size.height);
            staged.push((id, vec![0u8;n]));
        }
        self.set_layers(size, stack);
        self.pending = Some(PendingUpload { size, layers: staged });
        self.masked_layers.clear();
        self.needs_fit = true;
    }

    /// Whether the frame can go on, given whether what was staged could be
    /// uploaded. What could not be uploaded stays staged, and the frame ends.
    pub fn finish_upload(&mut self, uploaded: bool) -> (go_on: bool)
        ensures
            go_on == (old(self).pending is None || uploaded),
            *final(self) == (if old(self).pending is Some && uploaded {
                PigmentApp { pending: None, force_composite: true, ..*old(self) }
            } else {
                *old(self)
            }),
    {
        if self.pending.is_none() {
            return true;
        }
        if !uploaded {
            return false;
        }
        self.pending = None;
        self.force_composite = true;
        true
    }

    /// The passes that have to be run again on the layers that were uploaded, from
    /// the bottom up.
    pub fn smart_passes(&self) -> (r: Vec<(LayerId, Vec<SmartPass>)>)
        ensures
            ({
                let layers = self.doc.layers.layers@;
                let due = due_passes(layers, self.smart_filters@, layers.len() as int);
                &&& r@.len() == due.len()
                &&& forall|i: int|
                    0 <= i < r@.len() ==> (#[trigger] r@[i]).0 == due[i].0 && r@[i].1@
                        == due[i].1
            }),
    {
        let mut out: Vec<(LayerId, Vec<SmartPass>)> = Vec::new();
        let mut k: usize = 0;
        while k < self.doc.layers.layers.len()
            invariant
                k <= self.doc.layers.layers@.len(),
                ({
                    let due = due_passes(
                        self.doc.layers.layers@,
                        self.smart_filters@,
                        k as int,
                    );
                    &&& out@.len() == due.len()
                    &&& forall|i: int|
                        0 <= i < out@.len() ==> (#[trigger] out@[i]).0 == due[i].0 && out@[i].1@
                            == due[i].1
                }),
            decreases self.doc.layers.layers@.len() - k,
        {
            let id: LayerId = self.doc.layers.layers[k].id;
            if let Some(s) = self.smart_filters.get(&id.0) {
                if !s.is_empty() {
                    out.push((id, s.enabled_passes()));
                }
            }
            k = k + 1;
        }
        out
    }
}

/// The passes of the first `n` layers that have smart filters.
pub open spec fn due_passes(
    layers: Seq<Layer>,
    smart: Map<u64, SmartFilterStack>,
    n: int,
) -> Seq<(LayerId, Seq<SmartPass>)>
    decreases n,
{
    if n <= 0 {
        Seq::empty()
    } else {
        let before = due_passes(layers, smart, n - 1);
        let id = layers[n - 1].id;
        let filters = filters_of(smart, id);
        if filters.len() > 0 {
            before.push((id, passes(filters)))
        } else {
            before
        }
    }
}

/// Whether every layer that a comp records is there.
pub open spec fn records_layers(entries: Seq<(LayerId, LayerAttrs)>, layers: Seq<Layer>) -> bool {
    forall|k: int|
        0 <= k < entries.len() ==> place(layers, (#[trigger] entries[k]).0) < layers.len()
}

/// A document that was saved opens as it was: its size, and of each layer, in its
/// place, the name, the looks, the adjustment, the styles and the filters. Text and
/// vector layers come back as pixels.
pub proof fn law_saved_document_returns(
    app: PigmentApp,
    meta: DocMeta,
    back: PigmentApp,
    i: int,
)
    requires
        app.wf(),
        app.saves_document(meta),
        back.shows_document(meta),
        0 <= i < app.doc.layers.layers@.len(),
        forall|k: int| #![trigger filters_of(
            app.smart_filters@,
            app.doc.layers.layers@[i].id,
        )[k]]
            0 <= k < filters_of(app.smart_filters@, app.doc.layers.layers@[i].id).len()
                ==> in_range(
                filters_of(app.smart_filters@, app.doc.layers.layers@[i].id)[k].kind,
            ),
    ensures
        back.doc.size == app.doc.size,
        back.doc.layers.layers@.len() == app.doc.layers.layers@.len(),
        ({
            let (l, b) = (app.doc.layers.layers@[i], back.doc.layers.layers@[i]);
            &&& b.id == LayerId((1 + i) as u64)
            &&& b.name@ == l.name@
            &&& b.blend == l.blend
            &&& b.opacity == l.opacity
            &&& b.visible == l.visible
            &&& match l.kind {
                LayerKind::Adjustment(a) => b.kind matches LayerKind::Adjustment(c) && c.same_as(
                    a,
                ),
                _ => b.kind is Raster,
            }
            &&& back.styles.of(b.id) == app.styles.of(l.id)
            &&& filters_of(back.smart_filters@, b.id) == filters_of(app.smart_filters@, l.id)
        }),
{
    let (l, b) = (app.doc.layers.layers@[i], back.doc.layers.layers@[i]);
    let m = meta.layers@[i];
    law_saved_layers_return(
        l,
        app.styles.of(l.id),
        filters_of(app.smart_filters@, l.id),
        m,
        LayerId((1 + i) as u64),
        b,
    );
}

/// The comps of a document that was saved come back too, each entry with the layer
/// that stands in the place of the one it recorded.
pub proof fn law_saved_comps_return(app: PigmentApp, meta: DocMeta, back: PigmentApp, i: int)
    requires
        app.wf(),
        app.saves_document(meta),
        back.shows_document(meta),
        meta.layers@.len() < u64::MAX,
        0 <= i < app.comps@.len(),
        records_layers(app.comps@[i].entries@, app.doc.layers.layers@),
    ensures
        back.comps@.len() == app.comps@.len(),
        back.comps@[i].name@ == app.comps@[i].name@,
        back.comps@[i].entries@ == app.comps@[i].entries@.map_values(
            |e: (LayerId, LayerAttrs)|
                (LayerId((1 + place(app.doc.layers.layers@, e.0)) as u64), e.1),
        ),
{
    let layers = app.doc.layers.layers@;
    let n = meta.layers@.len() as int;
    let ids = new_ids(meta.layers@, 1, n);
    let entries = app.comps@[i].entries@;
    assert forall|j: int, k: int| 0 <= j < k < n implies (#[trigger] meta.layers@[j]).id != (
    #[trigger] meta.layers@[k]).id by {
        assert(layers[j].id != layers[k].id);
    }
    assert forall|k: int| 0 <= k < entries.len() implies ids.dom().contains(
        (#[trigger] entries[k]).0.0,
    ) && ids[entries[k].0.0] == LayerId((1 + place(layers, entries[k].0)) as u64) by {
        let p = place(layers, entries[k].0);
        lemma_place(layers, entries[k].0);
        assert(meta.layers@[p].id == layers[p].id.0);
        law_new_ids_are_those_of_the_layers(meta.layers@, 1, n, p);
    }
    law_saved_comp_returns(entries, ids);
    assert(meta.comps@[i].entries@ == entries.map_values(|e: (LayerId, LayerAttrs)| saved(e)));
    assert(back.comps@[i].entries@ =~= entries.map_values(
        |e: (LayerId, LayerAttrs)| (LayerId((1 + place(layers, e.0)) as u64), e.1),
    ));
}

} // verus!
