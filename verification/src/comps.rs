//! Layer comps: named snapshots of how every layer looks.
//!
//! A comp records visibility, opacity and blend mode by layer identity. Restoring
//! it touches the layers that still exist and no others, wherever they stand now.

use crate::layer::{find, lemma_place, place, BlendMode, Layer, LayerId};
use crate::scalar::Scalar;
use std::collections::HashMap;
use vstd::prelude::*;

verus! {

broadcast use vstd::std_specs::hash::group_hash_axioms;

/// What a comp records of one layer.
#[derive(Clone, Copy, PartialEq, Eq, Structural, Debug)]
pub struct LayerAttrs {
    pub visible: bool,
    pub opacity: Scalar,
    pub blend: BlendMode,
}

/// A named snapshot.
#[derive(PartialEq, Eq, Debug)]
pub struct LayerComp {
    pub name: String,
    pub entries: Vec<(LayerId, LayerAttrs)>,
}

/// A saved entry of a comp.
#[derive(Clone, Copy, PartialEq, Eq, Structural, Debug)]
pub struct LayerCompEntry {
    pub id: u64,
    pub blend: u32,
    pub opacity: Scalar,
    pub visible: bool,
}

/// A saved comp.
#[derive(PartialEq, Eq, Debug)]
pub struct LayerCompMeta {
    pub name: String,
    pub entries: Vec<LayerCompEntry>,
}

/// What a comp records of a layer.
pub open spec fn attrs(l: Layer) -> LayerAttrs {
    LayerAttrs { visible: l.visible, opacity: l.opacity, blend: l.blend }
}

/// A layer that looks as recorded.
pub open spec fn dressed(l: Layer, a: LayerAttrs) -> Layer {
    Layer { visible: a.visible, opacity: a.opacity, blend: a.blend, ..l }
}

/// The layers after one entry was restored.
pub open spec fn restored(layers: Seq<Layer>, e: (LayerId, LayerAttrs)) -> Seq<Layer> {
    let i = place(layers, e.0);
    if i < layers.len() {
        layers.update(i, dressed(layers[i], e.1))
    } else {
        layers
    }
}

/// The layers after the entries were restored one by one.
pub open spec fn applied(entries: Seq<(LayerId, LayerAttrs)>, layers: Seq<Layer>) -> Seq<Layer>
    decreases entries.len(),
{
    if entries.len() == 0 {
        layers
    } else {
        restored(applied(entries.drop_last(), layers), entries.last())
    }
}

/// The entries that a comp captures.
pub open spec fn captured(layers: Seq<Layer>) -> Seq<(LayerId, LayerAttrs)> {
    layers.map_values(|l: Layer| (l.id, attrs(l)))
}

impl LayerAttrs {
    pub fn from_layer(l: &Layer) -> (r: LayerAttrs)
        ensures
            r == attrs(*l),
    {
        LayerAttrs { visible: l.visible, opacity: l.opacity, blend: l.blend }
    }

    pub fn apply_to(&self, l: &mut Layer)
        ensures
            *final(l) == dressed(*old(l), *self),
    {
        l.visible = self.visible;
        l.opacity = self.opacity;
        l.blend = self.blend;
    }
}

/// Record how the layers look.
pub fn capture_comp(name: String, layers: &Vec<Layer>) -> (r: LayerComp)
    ensures
        r.name == name,
        r.entries@ == captured(layers@),
{
    let mut entries: Vec<(LayerId, LayerAttrs)> = Vec::new();
    let mut i: usize = 0;
    while i < layers.len()
        invariant
            i <= layers@.len(),
            entries@.len() == i,
            forall|j: int|
                0 <= j < i ==> #[trigger] entries@[j] == (layers@[j].id, attrs(layers@[j])),
        decreases layers@.len() - i,
    {
        entries.push((layers[i].id, LayerAttrs::from_layer(&layers[i])));
        i = i + 1;
    }
    assert(entries@ =~= captured(layers@));
    LayerComp { name, entries }
}

/// Make the layers look as recorded. Layers that were not recorded stay as they
/// are, and entries whose layer is gone are passed over.
pub fn apply_comp(comp: &LayerComp, layers: &mut Vec<Layer>)
    ensures
        final(layers)@ == applied(comp.entries@, old(layers)@),
{
    let ghost start = layers@;
    let mut i: usize = 0;
    assert(comp.entries@.take(0) =~= Seq::<(LayerId, LayerAttrs)>::empty());
    while i < comp.entries.len()
        invariant
            i <= comp.entries@.len(),
            layers@ == applied(comp.entries@.take(i as int), start),
        decreases comp.entries@.len() - i,
    {
        let (id, a): (LayerId, LayerAttrs) = comp.entries[i];
        let ghost before = layers@;
        if let Some(k) = find(layers, id) {
            let mut l: Layer = layers.remove(k);
            a.apply_to(&mut l);
            layers.insert(k, l);
            assert(layers@ =~= restored(before, (id, a)));
        }
        proof {
            let next = comp.entries@.take(i + 1);
            assert(next.drop_last() =~= comp.entries@.take(i as int));
            assert(next.last() == (id, a));
        }
        i = i + 1;
    }
    assert(comp.entries@.take(i as int) =~= comp.entries@);
}

/// A saved entry.
pub open spec fn saved(e: (LayerId, LayerAttrs)) -> LayerCompEntry {
    LayerCompEntry {
        id: e.0.0,
        blend: e.1.blend.shader,
        opacity: e.1.opacity,
        visible: e.1.visible,
    }
}

/// The entry that a saved one stands for, once its layer has a new identity.
pub open spec fn loaded(e: LayerCompEntry, id: LayerId) -> (LayerId, LayerAttrs) {
    (
        id,
        LayerAttrs {
            visible: e.visible,
            opacity: e.opacity,
            blend: BlendMode { shader: e.blend },
        },
    )
}

/// The saved entries whose layer was loaded, under their new identities.
pub open spec fn remapped(
    entries: Seq<LayerCompEntry>,
    id_map: Map<u64, LayerId>,
) -> Seq<(LayerId, LayerAttrs)>
    decreases entries.len(),
{
    if entries.len() == 0 {
        Seq::empty()
    } else {
        let rest = remapped(entries.drop_last(), id_map);
        let e = entries.last();
        if id_map.dom().contains(e.id) {
            rest.push(loaded(e, id_map[e.id]))
        } else {
            rest
        }
    }
}

/// A comp as it is saved.
pub fn comp_to_meta(comp: &LayerComp) -> (r: LayerCompMeta)
    ensures
        r.name@ == comp.name@,
        r.entries@ == comp.entries@.map_values(|e: (LayerId, LayerAttrs)| saved(e)),
{
    let mut entries: Vec<LayerCompEntry> = Vec::new();
    let mut i: usize = 0;
    while i < comp.entries.len()
        invariant
            i <= comp.entries@.len(),
            entries@.len() == i,
            forall|j: int| 0 <= j < i ==> #[trigger] entries@[j] == saved(comp.entries@[j]),
        decreases comp.entries@.len() - i,
    {
        let (id, a): (LayerId, LayerAttrs) = comp.entries[i];
        entries.push(
            LayerCompEntry {
                id: id.0,
                blend: a.blend.shader_id(),
                opacity: a.opacity,
                visible: a.visible,
            },
        );
        i = i + 1;
    }
    assert(entries@ =~= comp.entries@.map_values(|e: (LayerId, LayerAttrs)| saved(e)));
    LayerCompMeta { name: comp.name.clone(), entries }
}

/// A saved comp for a loaded document, given which identity each saved layer got.
/// Entries whose layer was not loaded are dropped.
pub fn meta_to_comp(meta: &LayerCompMeta, id_map: &HashMap<u64, LayerId>) -> (r: LayerComp)
    ensures
        r.name@ == meta.name@,
        r.entries@ == remapped(meta.entries@, id_map@),
{
    let mut entries: Vec<(LayerId, LayerAttrs)> = Vec::new();
    let mut i: usize = 0;
    assert(meta.entries@.take(0) =~= Seq::<LayerCompEntry>::empty());
    while i < meta.entries.len()
        invariant
            i <= meta.entries@.len(),
            entries@ == remapped(meta.entries@.take(i as int), id_map@),
        decreases meta.entries@.len() - i,
    {
        let e: LayerCompEntry = meta.entries[i];
        proof {
            let next = meta.entries@.take(i + 1);
            assert(next.drop_last() =~= meta.entries@.take(i as int));
            assert(next.last() == e);
        }
        if let Some(id) = id_map.get(&e.id) {
            entries.push(
                (
                    *id,
                    LayerAttrs {
                        visible: e.visible,
                        opacity: e.opacity,
                        blend: BlendMode::from_shader_id(e.blend),
                    },
                ),
            );
        }
        i = i + 1;
    }
    assert(meta.entries@.take(i as int) =~= meta.entries@);
    LayerComp { name: meta.name.clone(), entries }
}

/// No two layers share an identity.
pub open spec fn distinct(layers: Seq<Layer>) -> bool {
    forall|i: int, j: int|
        0 <= i < j < layers.len() ==> (#[trigger] layers[i]).id != (#[trigger] layers[j]).id
}

/// What the entries record of the layer with identity `id`, the last one if they
/// record it more than once.
pub open spec fn recorded(
    entries: Seq<(LayerId, LayerAttrs)>,
    id: LayerId,
) -> Option<LayerAttrs>
    decreases entries.len(),
{
    if entries.len() == 0 {
        None
    } else if entries.last().0 == id {
        Some(entries.last().1)
    } else {
        recorded(entries.drop_last(), id)
    }
}

/// Restoring dresses every layer as it was recorded and leaves the others alone.
/// Order, names, kinds and identities stay.
pub proof fn law_restore_dresses_recorded_layers(
    entries: Seq<(LayerId, LayerAttrs)>,
    layers: Seq<Layer>,
)
    requires
        distinct(layers),
    ensures
        applied(entries, layers).len() == layers.len(),
        forall|k: int|
            0 <= k < layers.len() ==> #[trigger] applied(entries, layers)[k] == (match recorded(
                entries,
                layers[k].id,
            ) {
                Some(a) => dressed(layers[k], a),
                None => layers[k],
            }),
    decreases entries.len(),
{
    if entries.len() > 0 {
        let (before, e) = (applied(entries.drop_last(), layers), entries.last());
        law_restore_dresses_recorded_layers(entries.drop_last(), layers);
        lemma_place(before, e.0);
        let i = place(before, e.0);
        assert forall|k: int| 0 <= k < layers.len() implies #[trigger] applied(entries, layers)[k]
            == (match recorded(entries, layers[k].id) {
            Some(a) => dressed(layers[k], a),
            None => layers[k],
        }) by {
            assert(before[k].id == layers[k].id);
            if i < layers.len() {
                assert(before[i].id == layers[i].id);
                if k < i {
                    assert(layers[k].id != layers[i].id);
                } else if i < k {
                    assert(layers[i].id != layers[k].id);
                }
            } else {
                assert(before[k].id != e.0);
            }
        }
    }
}

proof fn lemma_recorded_capture(layers: Seq<Layer>, j: int)
    requires
        distinct(layers),
        0 <= j < layers.len(),
    ensures
        recorded(captured(layers), layers[j].id) == Some(attrs(layers[j])),
    decreases layers.len(),
{
    let c = captured(layers);
    assert(c.drop_last() =~= captured(layers.drop_last()));
    if j < layers.len() - 1 {
        assert(layers[j].id != layers[layers.len() - 1].id);
        assert(layers.drop_last()[j] == layers[j]);
        lemma_recorded_capture(layers.drop_last(), j);
    }
}

/// Restoring what was captured gives every layer that is still there its looks
/// back, wherever it stands now and whatever was done to it.
pub proof fn law_restore_reverts_edits(then: Seq<Layer>, now: Seq<Layer>, j: int, k: int)
    requires
        distinct(then),
        distinct(now),
        0 <= j < then.len(),
        0 <= k < now.len(),
        then[j].id == now[k].id,
    ensures
        applied(captured(then), now)[k] == dressed(now[k], attrs(then[j])),
{
    lemma_recorded_capture(then, j);
    law_restore_dresses_recorded_layers(captured(then), now);
}

/// Restoring what was just captured changes nothing.
pub proof fn law_restore_at_once(layers: Seq<Layer>)
    requires
        distinct(layers),
    ensures
        applied(captured(layers), layers) == layers,
{
    law_restore_dresses_recorded_layers(captured(layers), layers);
    assert forall|k: int| 0 <= k < layers.len() implies applied(captured(layers), layers)[k]
        == layers[k] by {
        lemma_recorded_capture(layers, k);
    }
    assert(applied(captured(layers), layers) =~= layers);
}

/// Restoring a comp twice is restoring it once.
pub proof fn law_restore_twice(entries: Seq<(LayerId, LayerAttrs)>, layers: Seq<Layer>)
    requires
        distinct(layers),
    ensures
        applied(entries, applied(entries, layers)) == applied(entries, layers),
{
    let once = applied(entries, layers);
    law_restore_dresses_recorded_layers(entries, layers);
    assert(distinct(once)) by {
        assert forall|i: int, j: int| 0 <= i < j < once.len() implies (#[trigger] once[i]).id != (
        #[trigger] once[j]).id by {
            assert(layers[i].id != layers[j].id);
        }
    }
    law_restore_dresses_recorded_layers(entries, once);
    assert(applied(entries, once) =~= once);
}

/// A saved comp comes back entry by entry, each under its layer's new identity,
/// if every layer it records was loaded.
pub proof fn law_saved_comp_returns(
    entries: Seq<(LayerId, LayerAttrs)>,
    id_map: Map<u64, LayerId>,
)
    requires
        forall|i: int|
            0 <= i < entries.len() ==> id_map.dom().contains((#[trigger] entries[i]).0.0),
    ensures
        remapped(entries.map_values(|e: (LayerId, LayerAttrs)| saved(e)), id_map)
            == entries.map_values(|e: (LayerId, LayerAttrs)| (id_map[e.0.0], e.1)),
    decreases entries.len(),
{
    let all = entries.map_values(|e: (LayerId, LayerAttrs)| saved(e));
    let back = entries.map_values(|e: (LayerId, LayerAttrs)| (id_map[e.0.0], e.1));
    if entries.len() > 0 {
        let front = entries.drop_last();
        assert forall|i: int| 0 <= i < front.len() implies id_map.dom().contains(
            (#[trigger] front[i]).0.0,
        ) by {
            assert(front[i] == entries[i]);
        }
        law_saved_comp_returns(front, id_map);
        assert(all.drop_last() =~= front.map_values(|e: (LayerId, LayerAttrs)| saved(e)));
        assert(back.drop_last() =~= front.map_values(
            |e: (LayerId, LayerAttrs)| (id_map[e.0.0], e.1),
        ));
        assert(entries[entries.len() - 1] == entries.last());
        assert(remapped(all, id_map) =~= back);
    } else {
        assert(remapped(all, id_map) =~= back);
    }
}

/// The saved entries whose layers were not loaded are dropped, and no others.
pub proof fn law_lost_entries_are_dropped(
    entries: Seq<LayerCompEntry>,
    id_map: Map<u64, LayerId>,
)
    ensures
        remapped(entries, id_map) == entries.filter(
            |e: LayerCompEntry| id_map.dom().contains(e.id),
        ).map_values(|e: LayerCompEntry| loaded(e, id_map[e.id])),
    decreases entries.len(),
{
    reveal(Seq::filter);
    let kept = |e: LayerCompEntry| id_map.dom().contains(e.id);
    let back = |e: LayerCompEntry| loaded(e, id_map[e.id]);
    if entries.len() > 0 {
        law_lost_entries_are_dropped(entries.drop_last(), id_map);
        let front = entries.drop_last().filter(kept);
        if kept(entries.last()) {
            assert(front.push(entries.last()).map_values(back) =~= front.map_values(back).push(
                back(entries.last()),
            ));
        }
    }
    assert(remapped(entries, id_map) =~= entries.filter(kept).map_values(back));
}

} // verus!
