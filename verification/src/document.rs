//! What a document file says of its layers, and how layers are made of it.
//!
//! Layers get new identities when they are loaded. A saved comp speaks of the old
//! ones, so loading also tells which layer got which.

use crate::layer::{Adjustment, BlendMode, Layer, LayerId, LayerKind, LayerStack};
use crate::scalar::Scalar;
use crate::smart_filter::{
    in_range, law_saved_stack_returns, restored, saves, SmartFilter, SmartFilterMeta,
    SmartFilterStack,
};
use crate::styles::{
    meta_styles_to_runtime, runtime_styles_to_meta, LayerStyles, RuntimeLayerStyles, StyleMaps,
};
use std::collections::HashMap;
use vstd::prelude::*;

verus! {

broadcast use vstd::std_specs::hash::group_hash_axioms;

/// A saved layer, without its pixels.
#[derive(PartialEq, Eq, Debug)]
pub struct LayerMeta {
    pub id: u64,
    pub name: String,
    pub blend: u32,
    pub opacity: Scalar,
    pub visible: bool,
    pub styles: Option<LayerStyles>,
    pub adjustment: Option<Adjustment>,
    pub smart_filters: Vec<SmartFilterMeta>,
}

/// The filters of a layer, none where it has no stack.
pub open spec fn filters_of(smart: Map<u64, SmartFilterStack>, id: LayerId) -> Seq<SmartFilter> {
    if smart.dom().contains(id.0) {
        smart[id.0].filters@
    } else {
        Seq::empty()
    }
}

/// The saved form of a filter stack.
pub open spec fn saves_filters(s: Seq<SmartFilter>, m: Seq<SmartFilterMeta>) -> bool {
    &&& m.len() == s.len()
    &&& forall|i: int| 0 <= i < s.len() ==> saves(s[i], #[trigger] m[i])
}

/// `m` is a layer as it is saved.
pub open spec fn saves_layer(
    l: Layer,
    rt: RuntimeLayerStyles,
    filters: Seq<SmartFilter>,
    m: LayerMeta,
) -> bool {
    &&& m.id == l.id.0
    &&& m.name@ == l.name@
    &&& m.blend == l.blend.shader
    &&& m.opacity == l.opacity
    &&& m.visible == l.visible
    &&& match m.styles {
        Some(s) => !rt.none() && s.returned() == rt,
        None => rt.none(),
    }
    &&& match l.kind {
        LayerKind::Adjustment(a) => m.adjustment matches Some(b) && b.same_as(a),
        _ => m.adjustment is None,
    }
    &&& saves_filters(filters, m.smart_filters@)
}

/// A layer as it is saved.
fn save_layer(l: &Layer, styles: &StyleMaps, smart: &HashMap<u64, SmartFilterStack>) -> (m:
    LayerMeta)
    ensures
        saves_layer(*l, styles.of(l.id), filters_of(smart@, l.id), m),
{
    LayerMeta {
        id: l.id.0,
        name: l.name.clone(),
        blend: l.blend.shader_id(),
        opacity: l.opacity,
        visible: l.visible,
        styles: runtime_styles_to_meta(&styles.collect_runtime_styles(l.id)),
        adjustment: match &l.kind {
            LayerKind::Adjustment(a) => Some(a.copied()),
            _ => None,
        },
        smart_filters: match smart.get(&l.id.0) {
            Some(s) => s.to_meta(),
            None => Vec::new(),
        },
    }
}

/// The layers as they are saved, from the bottom up.
pub fn save_layers(
    layers: &Vec<Layer>,
    styles: &StyleMaps,
    smart: &HashMap<u64, SmartFilterStack>,
) -> (r: Vec<LayerMeta>)
    ensures
        r@.len() == layers@.len(),
        forall|i: int|
            0 <= i < r@.len() ==> saves_layer(
                layers@[i],
                styles.of(layers@[i].id),
                filters_of(smart@, layers@[i].id),
                #[trigger] r@[i],
            ),
{
    let mut out: Vec<LayerMeta> = Vec::new();
    let mut i: usize = 0;
    while i < layers.len()
        invariant
            i <= layers@.len(),
            out@.len() == i,
            forall|j: int|
                0 <= j < i ==> saves_layer(
                    layers@[j],
                    styles.of(layers@[j].id),
                    filters_of(smart@, layers@[j].id),
                    #[trigger] out@[j],
                ),
        decreases layers@.len() - i,
    {
        out.push(save_layer(&layers[i], styles, smart));
        i = i + 1;
    }
    out
}

/// `l` is the layer that a saved one stands for, under a new identity. A layer
/// that adjusted nothing comes back as pixels.
pub open spec fn loads_layer(m: LayerMeta, id: LayerId, l: Layer) -> bool {
    &&& l.id == id
    &&& l.name@ == m.name@
    &&& l.blend.shader == m.blend
    &&& l.opacity == m.opacity
    &&& l.visible == m.visible
    &&& match m.adjustment {
        Some(a) => l.kind matches LayerKind::Adjustment(b) && b.same_as(a),
        None => l.kind is Raster,
    }
}

fn load_layer(m: &LayerMeta, id: LayerId) -> (l: Layer)
    ensures
        loads_layer(*m, id, l),
{
    let mut l: Layer = match &m.adjustment {
        Some(a) => Layer::adjustment(id, m.name.clone(), a.copied()),
        None => Layer::raster(id, m.name.clone()),
    };
    l.opacity = m.opacity;
    l.visible = m.visible;
    l.blend = BlendMode::from_shader_id(m.blend);
    l
}

/// Which identity each of the first `n` saved layers gets, the first one getting
/// number `first`.
pub open spec fn new_ids(meta: Seq<LayerMeta>, first: int, n: int) -> Map<u64, LayerId>
    decreases n,
{
    if n <= 0 {
        Map::empty()
    } else {
        new_ids(meta, first, n - 1).insert(meta[n - 1].id, LayerId((first + n - 1) as u64))
    }
}

/// The styles that a saved layer has.
pub open spec fn styles_in(m: LayerMeta) -> RuntimeLayerStyles {
    match m.styles {
        Some(s) => s.returned(),
        None => RuntimeLayerStyles {
            stroke: None,
            drop_shadow: None,
            color_overlay: None,
            inner_shadow: None,
            outer_glow: None,
            inner_glow: None,
            grad_overlay: None,
            bevel: None,
        },
    }
}

/// The filters that a saved layer has.
pub open spec fn filters_in(m: LayerMeta) -> Seq<SmartFilter> {
    m.smart_filters@.map_values(|f: SmartFilterMeta| restored(f))
}

/// The layers, styles and filters of a loaded document.
pub struct Loaded {
    pub stack: LayerStack,
    pub styles: StyleMaps,
    pub smart: HashMap<u64, SmartFilterStack>,
    /// Which identity each saved layer got.
    pub id_map: HashMap<u64, LayerId>,
}

/// Make the layers of a loaded document on a stack without layers. Nothing of a
/// document before is left in the styles and filters.
pub fn load_layers(meta: &Vec<LayerMeta>, first: u64) -> (r: Loaded)
    requires
        first + meta@.len() <= u64::MAX,
    ensures
        r.stack.wf(),
        r.stack.next_id == first + meta@.len(),
        r.stack.layers@.len() == meta@.len(),
        forall|i: int|
            0 <= i < meta@.len() ==> {
                let id = LayerId((first + i) as u64);
                &&& loads_layer(meta@[i], id, #[trigger] r.stack.layers@[i])
                &&& r.styles.of(id) == styles_in(meta@[i])
                &&& filters_of(r.smart@, id) == filters_in(meta@[i])
            },
        forall|id: LayerId|
            id.0 < first || id.0 >= first + meta@.len() ==> (#[trigger] r.styles.of(id)).none(),
        forall|k: u64|
            k < first || k >= first + meta@.len() ==> !#[trigger] r.smart@.dom().contains(k),
        r.id_map@ == new_ids(meta@, first as int, meta@.len() as int),
{
    let mut stack: LayerStack = LayerStack { layers: Vec::new(), next_id: first };
    let mut styles: StyleMaps = StyleMaps::new();
    let mut smart: HashMap<u64, SmartFilterStack> = HashMap::new();
    let mut id_map: HashMap<u64, LayerId> = HashMap::new();
    let mut i: usize = 0;
    let n: usize = meta.len();
    while i < n
        invariant
            i <= n == meta@.len(),
            first + n <= u64::MAX,
            stack.wf(),
            stack.next_id == first + i,
            stack.layers@.len() == i,
            forall|j: int|
                0 <= j < i ==> {
                    let id = LayerId((first + j) as u64);
                    &&& loads_layer(meta@[j], id, #[trigger] stack.layers@[j])
                    &&& styles.of(id) == styles_in(meta@[j])
                    &&& filters_of(smart@, id) == filters_in(meta@[j])
                },
            forall|id: LayerId|
                id.0 < first || id.0 >= first + i ==> (#[trigger] styles.of(id)).none(),
            forall|k: u64|
                k < first || k >= first + i ==> !#[trigger] smart@.dom().contains(k),
            id_map@ == new_ids(meta@, first as int, i as int),
        decreases n - i,
    {
        let m: &LayerMeta = &meta[i];
        let id: LayerId = stack.alloc_id();
        id_map.insert(m.id, id);
        stack.layers.push(load_layer(m, id));
        if let Some(s) = &m.styles {
            styles.install_runtime_styles(id, &meta_styles_to_runtime(s));
        }
        if m.smart_filters.len() > 0 {
            smart.insert(id.0, SmartFilterStack::from_meta(m.smart_filters.as_slice()));
        } else {
            assert(filters_in(*m) =~= Seq::<SmartFilter>::empty());
        }
        i = i + 1;
    }
    Loaded { stack, styles, smart, id_map }
}

/// The pixels of the loaded layers, each under its identity, ready to be
/// uploaded. A layer whose pixels are missing gets none.
pub fn stage_pixels(layers: &Vec<Layer>, pixels: Vec<Vec<u8>>) -> (r: Vec<(LayerId, Vec<u8>)>)
    ensures
        r@.len() == layers@.len(),
        forall|i: int|
            0 <= i < r@.len() ==> (#[trigger] r@[i]).0 == layers@[i].id && r@[i].1@ == (if i
                < pixels@.len() {
                pixels@[i]@
            } else {
                Seq::<u8>::empty()
            }),
{
    let mut rest: Vec<Vec<u8>> = pixels;
    let ghost all = pixels@;
    let mut out: Vec<(LayerId, Vec<u8>)> = Vec::new();
    let mut i: usize = 0;
    while i < layers.len()
        invariant
            i <= layers@.len(),
            out@.len() == i,
            rest@ == (if i <= all.len() {
                all.skip(i as int)
            } else {
                Seq::<Vec<u8>>::empty()
            }),
            forall|j: int|
                0 <= j < i ==> (#[trigger] out@[j]).0 == layers@[j].id && out@[j].1@ == (if j
                    < all.len() {
                    all[j]@
                } else {
                    Seq::<u8>::empty()
                }),
        decreases layers@.len() - i,
    {
        let bytes: Vec<u8> = if rest.len() > 0 {
            let b: Vec<u8> = rest.remove(0);
            assert(rest@ =~= all.skip(i + 1));
            b
        } else {
            Vec::new()
        };
        proof {
            if i >= all.len() {
                assert(bytes@ =~= Seq::<u8>::empty());
                assert(rest@ =~= Seq::<Vec<u8>>::empty());
                if i + 1 <= all.len() {
                    assert(all.skip(i + 1) =~= Seq::<Vec<u8>>::empty());
                }
            }
        }
        out.push((layers[i].id, bytes));
        i = i + 1;
    }
    out
}

/// A saved document comes back layer by layer: names, looks, adjustments and
/// styles are what they were, and so are the filters whose parameters are in
/// range.
pub proof fn law_saved_layers_return(
    l: Layer,
    rt: RuntimeLayerStyles,
    filters: Seq<SmartFilter>,
    m: LayerMeta,
    id: LayerId,
    back: Layer,
)
    requires
        saves_layer(l, rt, filters, m),
        loads_layer(m, id, back),
        forall|i: int| 0 <= i < filters.len() ==> in_range((#[trigger] filters[i]).kind),
    ensures
        back.id == id,
        back.name@ == l.name@,
        back.blend == l.blend,
        back.opacity == l.opacity,
        back.visible == l.visible,
        match l.kind {
            LayerKind::Adjustment(a) => back.kind matches LayerKind::Adjustment(b) && b.same_as(a),
            _ => back.kind is Raster,
        },
        styles_in(m) == rt,
        filters_in(m) == filters,
{
    law_saved_stack_returns(filters, m.smart_filters@);
}

/// Every saved layer has a new identity, and it is the loaded layer's.
pub proof fn law_new_ids_are_those_of_the_layers(meta: Seq<LayerMeta>, first: int, n: int, i: int)
    requires
        0 <= i < n <= meta.len(),
        0 <= first,
        first + n <= u64::MAX,
        forall|j: int, k: int|
            0 <= j < k < meta.len() ==> (#[trigger] meta[j]).id != (#[trigger] meta[k]).id,
    ensures
        new_ids(meta, first, n).dom().contains(meta[i].id),
        new_ids(meta, first, n)[meta[i].id] == LayerId((first + i) as u64),
    decreases n,
{
    if i < n - 1 {
        law_new_ids_are_those_of_the_layers(meta, first, n - 1, i);
        assert(meta[i].id != meta[n - 1].id);
    }
}

} // verus!
