//! Editing the stack of layers: adding, moving and deleting them, their masks,
//! comps and smart filters.

use crate::comps::{
    applied, apply_comp, capture_comp, captured, law_restore_dresses_recorded_layers, LayerComp,
};
use crate::document::filters_of;
use crate::editor::PigmentApp;
use crate::fingerprint::open_ranges;
use crate::geometry::ONE;
use crate::layer::{lemma_place, place, raised, without, Layer, LayerId, LayerKind};
use crate::scalar::Scalar;
use crate::smart_filter::{
    exchanged, passes, SmartFilter, SmartFilterKind, SmartFilterStack, SmartPass,
};
use crate::text::{digits, numbered, trim, trimmed};
use crate::tools::SelectionOp;
use vstd::prelude::*;

verus! {

broadcast use vstd::std_specs::hash::group_hash_axioms;

/// A change of the stack, asked for in the layer list.
#[derive(Clone, Copy, PartialEq, Eq, Structural, Debug)]
pub enum LayerAction {
    Nothing,
    Delete(LayerId),
    MoveUp(LayerId),
    MoveDown(LayerId),
}

/// The layers after an action. The last layer cannot be deleted.
pub open spec fn acted(layers: Seq<Layer>, action: LayerAction) -> Seq<Layer> {
    match action {
        LayerAction::Nothing => layers,
        LayerAction::Delete(id) => if layers.len() > 1 {
            without(layers, id)
        } else {
            layers
        },
        LayerAction::MoveUp(id) => raised(layers, place(layers, id)),
        LayerAction::MoveDown(id) => if 0 < place(layers, id) < layers.len() {
            raised(layers, place(layers, id) - 1)
        } else {
            layers
        },
    }
}

impl PigmentApp {
    /// The active layer and the background after a layer was deleted.
    pub open spec fn settled(self, before: PigmentApp, id: LayerId) -> bool {
        let layers = self.doc.layers.layers@;
        &&& self.doc.active_layer == (if before.doc.active_layer == Some(id) {
            Some(layers.last().id)
        } else {
            before.doc.active_layer
        })
        &&& self.background_id == layers[0].id
    }

    /// Carry out an action. The layer that is no longer needed, if any, is
    /// returned.
    pub fn apply_layer_action(&mut self, action: LayerAction) -> (dropped: Option<LayerId>)
        requires
            old(self).wf(),
        ensures
            final(self).wf(),
            final(self).doc.layers.layers@ == acted(old(self).doc.layers.layers@, action),
            final(self).doc.layers.next_id == old(self).doc.layers.next_id,
            dropped == (match action {
                LayerAction::Delete(id) => if old(self).doc.layers.layers@.len() > 1 {
                    Some(id)
                } else {
                    None
                },
                _ => None,
            }),
            match dropped {
                Some(id) => final(self).settled(*old(self), id),
                None => final(self).doc.active_layer == old(self).doc.active_layer
                    && final(self).background_id == old(self).background_id,
            },
            final(self).doc.size == old(self).doc.size,
            *final(self) == (PigmentApp {
                doc: final(self).doc,
                background_id: final(self).background_id,
                ..*old(self)
            }),
    {
        match action {
            LayerAction::Nothing => None,
            LayerAction::Delete(id) => {
                if self.doc.layers.layers.len() <= 1 {
                    return None;
                }
                self.doc.layers.remove(id);
                proof {
                    lemma_place(old(self).doc.layers.layers@, id);
                }
                let n: usize = self.doc.layers.layers.len();
                let was_active: bool = match self.doc.active_layer {
                    Some(a) => a == id,
                    None => false,
                };
                if was_active {
                    self.doc.active_layer = Some(self.doc.layers.layers[n - 1].id);
                }
                self.background_id = self.doc.layers.layers[0].id;
                Some(id)
            },
            LayerAction::MoveUp(id) => {
                self.doc.layers.move_up(id);
                None
            },
            LayerAction::MoveDown(id) => {
                self.doc.layers.move_down(id);
                None
            },
        }
    }

    /// A layer was put on top and made active.
    pub open spec fn topped(self, before: PigmentApp, name: Seq<char>, kind: LayerKind) -> bool {
        let (layers, was) = (self.doc.layers.layers@, before.doc.layers.layers@);
        let id = LayerId(before.doc.layers.next_id);
        &&& layers.len() == was.len() + 1
        &&& layers.drop_last() == was
        &&& layers.last().fresh(id, name, kind)
        &&& self.doc.layers.next_id == before.doc.layers.next_id + 1
        &&& self.doc.active_layer == Some(id)
        &&& self.doc.size == before.doc.size
        &&& self == (PigmentApp { doc: self.doc, ..before })
    }

    /// Put a layer on top and make it active.
    pub fn add_layer(&mut self, name: String, kind: LayerKind) -> (id: LayerId)
        requires
            old(self).wf(),
            old(self).doc.layers.next_id < u64::MAX,
        ensures
            final(self).wf(),
            id == LayerId(old(self).doc.layers.next_id),
            final(self).topped(*old(self), name@, kind),
    {
        let id: LayerId = self.doc.layers.add_layer(name, kind);
        self.doc.active_layer = Some(id);
        id
    }

    /// Put an empty raster layer on top, named after the number of layers.
    pub fn new_layer(&mut self) -> (id: LayerId)
        requires
            old(self).wf(),
            old(self).doc.layers.next_id < u64::MAX,
        ensures
            final(self).wf(),
            id == LayerId(old(self).doc.layers.next_id),
            final(self).topped(
                *old(self),
                "Layer "@ + digits(old(self).doc.layers.layers@.len() as int),
                LayerKind::Raster,
            ),
    {
        let name: String = numbered("Layer ", self.doc.layers.layers.len());
        self.add_layer(name, LayerKind::Raster)
    }

    /// Clip the active layer to the one below, or stop doing so.
    pub fn set_clipped(&mut self, on: bool)
        ensures
            final(self).clipped_layers@ == (if on {
                old(self).clipped_layers@.insert(old(self).spec_active_id().0)
            } else {
                old(self).clipped_layers@.remove(old(self).spec_active_id().0)
            }),
            *final(self) == (PigmentApp {
                clipped_layers: final(self).clipped_layers,
                force_composite: true,
                ..*old(self)
            }),
    {
        let id: LayerId = self.active_id();
        if on {
            self.clipped_layers.insert(id.0);
        } else {
            self.clipped_layers.remove(&id.0);
        }
        self.force_composite = true;
    }

    /// Give the active layer blend-if ranges that let everything through, or take
    /// its ranges away.
    pub fn set_blend_if(&mut self, on: bool)
        ensures
            on ==> {
                &&& final(self).blend_if@.dom() == old(self).blend_if@.dom().insert(
                    old(self).spec_active_id().0,
                )
                &&& final(self).blend_if@[old(self).spec_active_id().0]@ == open_ranges()
                &&& forall|k: u64|
                    k != old(self).spec_active_id().0 && old(self).blend_if@.dom().contains(k)
                        ==> #[trigger] final(self).blend_if@[k] == old(self).blend_if@[k]
            },
            !on ==> final(self).blend_if@ == old(self).blend_if@.remove(
                old(self).spec_active_id().0,
            ),
            *final(self) == (PigmentApp { blend_if: final(self).blend_if, ..*old(self) }),
    {
        let id: LayerId = self.active_id();
        if on {
            let (zero, one): (Scalar, Scalar) = (Scalar::zero(), Scalar { bits: ONE });
            let ranges: [Scalar; 4] = [zero, one, zero, one];
            assert(ranges@ =~= open_ranges());
            self.blend_if.insert(id.0, ranges);
            assert(self.blend_if@.dom() =~= old(self).blend_if@.dom().insert(id.0));
        } else {
            self.blend_if.remove(&id.0);
        }
    }

    /// Give the active layer a mask, made of the selection or white. Whether the
    /// selection is used is returned.
    pub fn add_mask(&mut self, from_selection: bool) -> (selected: bool)
        ensures
            selected == (from_selection && old(self).selection.active),
            final(self).masked_layers@ == old(self).masked_layers@.insert(
                old(self).spec_active_id().0,
            ),
            *final(self) == (PigmentApp {
                masked_layers: final(self).masked_layers,
                force_composite: true,
                ..*old(self)
            }),
    {
        let id: LayerId = self.active_id();
        self.masked_layers.insert(id.0);
        self.force_composite = true;
        from_selection && self.selection.active
    }

    /// Take the active layer's mask away.
    pub fn delete_mask(&mut self)
        ensures
            final(self).masked_layers@ == old(self).masked_layers@.remove(
                old(self).spec_active_id().0,
            ),
            *final(self) == (PigmentApp {
                masked_layers: final(self).masked_layers,
                edit_mask: false,
                force_composite: true,
                ..*old(self)
            }),
    {
        let id: LayerId = self.active_id();
        self.masked_layers.remove(&id.0);
        self.edit_mask = false;
        self.force_composite = true;
    }

    /// Whether the brush paints into the active layer's mask.
    pub fn paints_mask(&self) -> (r: bool)
        ensures
            r == (self.edit_mask && self.masked_layers@.contains(self.spec_active_id().0)),
    {
        self.edit_mask && self.masked_layers.contains(&self.active_id().0)
    }

    /// Select everything, nothing, or what was not selected.
    pub fn select(&mut self, op: SelectionOp)
        ensures
            final(self).selection.op_pending == Some(op),
            final(self).selection.active == !(op is Deselect),
            final(self).selection.drag_start == old(self).selection.drag_start,
            final(self).selection.base == old(self).selection.base,
            final(self).selection.mode == old(self).selection.mode,
            final(self).selection.lasso == old(self).selection.lasso,
            final(self).selection.feather_radius == old(self).selection.feather_radius,
            *final(self) == (PigmentApp { selection: final(self).selection, ..*old(self) }),
    {
        self.selection.op_pending = Some(op);
        self.selection.active =
        match op {
            SelectionOp::Deselect => false,
            _ => true,
        };
    }
}

/// `name` is what a new comp is called: the name that was typed, without blanks
/// around it, or a number where that leaves nothing.
pub open spec fn comp_name(typed: Seq<char>, count: int, name: Seq<char>) -> bool {
    exists|t: Seq<char>| #[trigger]
        trimmed(typed, t) && name == (if t.len() == 0 {
            "Comp "@ + digits(count + 1)
        } else {
            t
        })
}

impl PigmentApp {
    /// Record how the layers look, under the name that was typed.
    pub fn capture(&mut self)
        requires
            old(self).comps@.len() < usize::MAX,
        ensures
            final(self).comps@.len() == old(self).comps@.len() + 1,
            final(self).comps@.drop_last() == old(self).comps@,
            comp_name(
                old(self).new_comp_name@,
                old(self).comps@.len() as int,
                final(self).comps@.last().name@,
            ),
            final(self).comps@.last().entries@ == captured(old(self).doc.layers.layers@),
            final(self).new_comp_name@.len() == 0,
            *final(self) == (PigmentApp {
                comps: final(self).comps,
                new_comp_name: final(self).new_comp_name,
                ..*old(self)
            }),
    {
        let typed: String = trim(self.new_comp_name.as_str());
        let name: String = if typed.as_str().is_empty() {
            numbered("Comp ", self.comps.len() + 1)
        } else {
            typed
        };
        let comp: LayerComp = capture_comp(name, &self.doc.layers.layers);
        self.comps.push(comp);
        self.new_comp_name = String::new();
        assert(self.comps@.drop_last() =~= old(self).comps@);
        assert(trimmed(old(self).new_comp_name@, typed@));
    }

    /// Make the layers look as a comp recorded.
    pub fn restore(&mut self, i: usize)
        requires
            old(self).wf(),
            i < old(self).comps@.len(),
        ensures
            final(self).wf(),
            final(self).doc.layers.layers@ == applied(
                old(self).comps@[i as int].entries@,
                old(self).doc.layers.layers@,
            ),
            final(self).doc.layers.next_id == old(self).doc.layers.next_id,
            final(self).doc.size == old(self).doc.size,
            final(self).doc.active_layer == old(self).doc.active_layer,
            *final(self) == (PigmentApp {
                doc: final(self).doc,
                force_composite: true,
                ..*old(self)
            }),
    {
        proof {
            let (entries, layers) = (self.comps@[i as int].entries@, self.doc.layers.layers@);
            law_restore_dresses_recorded_layers(entries, layers);
            let after = applied(entries, layers);
            assert forall|k: int| 0 <= k < after.len() implies (#[trigger] after[k]).id
                == layers[k].id by {}
        }
        apply_comp(&self.comps[i], &mut self.doc.layers.layers);
        self.force_composite = true;
    }

    /// Forget a comp.
    pub fn delete_comp(&mut self, i: usize)
        requires
            i < old(self).comps@.len(),
        ensures
            final(self).comps@ == old(self).comps@.remove(i as int),
            *final(self) == (PigmentApp { comps: final(self).comps, ..*old(self) }),
    {
        self.comps.remove(i);
    }
}

/// A change of a stack of smart filters.
#[derive(Clone, Copy, PartialEq, Eq, Structural, Debug)]
pub enum SmartFilterUi {
    Nothing,
    Add(SmartFilterKind),
    Remove(usize),
    Toggle(usize),
    Up(usize),
    Down(usize),
    Edit(usize, SmartFilterKind),
}

/// A stack after a change. What is out of range changes nothing.
pub open spec fn changed(s: Seq<SmartFilter>, ui: SmartFilterUi) -> Seq<SmartFilter> {
    match ui {
        SmartFilterUi::Nothing => s,
        SmartFilterUi::Add(kind) => s.push(SmartFilter { kind, enabled: true }),
        SmartFilterUi::Remove(i) => if i < s.len() {
            s.remove(i as int)
        } else {
            s
        },
        SmartFilterUi::Toggle(i) => if i < s.len() {
            s.update(i as int, SmartFilter { enabled: !s[i as int].enabled, ..s[i as int] })
        } else {
            s
        },
        SmartFilterUi::Up(i) => if 0 < i < s.len() {
            exchanged(s, i as int, i - 1)
        } else {
            s
        },
        SmartFilterUi::Down(i) => if i + 1 < s.len() {
            exchanged(s, i as int, i + 1)
        } else {
            s
        },
        SmartFilterUi::Edit(i, kind) => if i < s.len() {
            s.update(i as int, SmartFilter { kind, ..s[i as int] })
        } else {
            s
        },
    }
}

/// What a change of a stack gives the canvas to do with the layer.
pub enum SmartReapply {
    /// Put the source pixels back: there are no filters any more.
    Restore(LayerId),
    /// Run these passes on the source pixels.
    Run(LayerId, Vec<SmartPass>),
}

impl PigmentApp {
    /// The stack of a layer, empty if it has none.
    pub fn smart_stack(&self, id: LayerId) -> (r: SmartFilterStack)
        ensures
            r.filters@ == filters_of(self.smart_filters@, id),
    {
        match self.smart_filters.get(&id.0) {
            Some(s) => s.copied(),
            None => SmartFilterStack::default(),
        }
    }

    /// Whether the active layer has pixels that can be filtered.
    pub open spec fn active_is_raster(self) -> bool {
        let layers = self.doc.layers.layers@;
        let i = place(layers, self.spec_active_id());
        i < layers.len() && layers[i].kind is Raster
    }

    fn is_raster(&self) -> (r: bool)
        ensures
            r == self.active_is_raster(),
    {
        match self.doc.layers.position(self.active_id()) {
            Some(i) => match &self.doc.layers.layers[i].kind {
                LayerKind::Raster => true,
                _ => false,
            },
            None => false,
        }
    }

    /// What has to be done again, given the stack of the active layer.
    pub open spec fn reapplies(self, filters: Seq<SmartFilter>, r: SmartReapply) -> bool {
        let id = self.spec_active_id();
        match r {
            SmartReapply::Restore(i) => filters.len() == 0 && i == id,
            SmartReapply::Run(i, p) => filters.len() > 0 && i == id && p@ == passes(filters),
        }
    }

    /// Only the active layer's stack has changed, and an empty one is forgotten.
    pub open spec fn holds_stack(self, before: PigmentApp, filters: Seq<SmartFilter>) -> bool {
        let id = before.spec_active_id();
        let (now, was) = (self.smart_filters@, before.smart_filters@);
        &&& filters_of(now, id) == filters
        &&& filters.len() == 0 ==> now == was.remove(id.0)
        &&& filters.len() > 0 ==> now.dom() == was.dom().insert(id.0)
        &&& forall|k: u64|
            k != id.0 && was.dom().contains(k) ==> #[trigger] now[k] == was[k]
        &&& self == (PigmentApp {
            smart_filters: self.smart_filters,
            force_composite: true,
            ..before
        })
    }

    /// Change the active layer's stack of smart filters, and say what has to be
    /// done again. Filters can be added to raster layers only.
    pub fn change_smart_filters(&mut self, ui: SmartFilterUi) -> (r: Option<SmartReapply>)
        ensures
            match r {
                None => {
                    &&& ui is Nothing || (ui is Add && !old(self).active_is_raster())
                    &&& *final(self) == *old(self)
                },
                Some(a) => {
                    let after = changed(
                        filters_of(old(self).smart_filters@, old(self).spec_active_id()),
                        ui,
                    );
                    &&& !(ui is Nothing)
                    &&& ui is Add ==> old(self).active_is_raster()
                    &&& final(self).holds_stack(*old(self), after)
                    &&& old(self).reapplies(after, a)
                },
            },
    {
        let id: LayerId = self.active_id();
        let mut stack: SmartFilterStack = self.smart_stack(id);
        match ui {
            SmartFilterUi::Nothing => {
                return None;
            },
            SmartFilterUi::Add(kind) => {
                if !self.is_raster() {
                    return None;
                }
                stack.add(kind);
            },
            SmartFilterUi::Remove(i) => {
                stack.remove(i);
            },
            SmartFilterUi::Toggle(i) => {
                stack.toggle(i);
            },
            SmartFilterUi::Up(i) => {
                stack.move_up(i);
            },
            SmartFilterUi::Down(i) => {
                stack.move_down(i);
            },
            SmartFilterUi::Edit(i, kind) => {
                stack.edit(i, kind);
            },
        }
        self.force_composite = true;
        if stack.is_empty() {
            self.smart_filters.remove(&id.0);
            assert(filters_of(self.smart_filters@, id) =~= stack.filters@);
            Some(SmartReapply::Restore(id))
        } else {
            let run: Vec<SmartPass> = stack.enabled_passes();
            self.smart_filters.insert(id.0, stack);
            assert(self.smart_filters@.dom() =~= old(self).smart_filters@.dom().insert(id.0));
            Some(SmartReapply::Run(id, run))
        }
    }

    /// Add a smart filter to the active layer.
    pub fn add_smart_filter(&mut self, kind: SmartFilterKind) -> (r: Option<SmartReapply>)
        ensures
            r is Some <==> old(self).active_is_raster(),
            match r {
                None => *final(self) == *old(self),
                Some(a) => {
                    let after = filters_of(
                        old(self).smart_filters@,
                        old(self).spec_active_id(),
                    ).push(SmartFilter { kind, enabled: true });
                    final(self).holds_stack(*old(self), after) && old(self).reapplies(after, a)
                },
            },
    {
        self.change_smart_filters(SmartFilterUi::Add(kind))
    }
}

/// No action ever leaves the document without a layer.
pub proof fn law_a_layer_remains(layers: Seq<Layer>, action: LayerAction)
    requires
        layers.len() > 0,
    ensures
        acted(layers, action).len() > 0,
{
    if let LayerAction::Delete(id) = action {
        lemma_place(layers, id);
    }
}

/// Adding a filter and removing it again leaves the stack as it was.
pub proof fn law_remove_undoes_add(s: Seq<SmartFilter>, kind: SmartFilterKind)
    requires
        s.len() < usize::MAX,
    ensures
        changed(changed(s, SmartFilterUi::Add(kind)), SmartFilterUi::Remove(s.len() as usize)) == s,
{
    assert(changed(
        changed(s, SmartFilterUi::Add(kind)),
        SmartFilterUi::Remove(s.len() as usize),
    ) =~= s);
}

} // verus!
