//! The editor's state: the document, the tools and their settings, and what is
//! waiting to be drawn.

use crate::comps::LayerComp;
use crate::geometry::{Point, Size, ViewTransform, HALF, ONE};
use crate::gradient::{preset_colors, preset_opacities, GradientEditor, Rgb8};
use crate::grid::grid_fits;
use crate::layer::{Document, LayerId, LayerKind};
use crate::panels::PanelVis;
use crate::pattern::Pattern;
use crate::scalar::Scalar;
use crate::settings::FilterSettings;
use crate::smart_filter::SmartFilterStack;
use crate::stroke::{Brush, Stroke};
use crate::styles::{StyleMaps, S0_10, S2};
use crate::tools::{CombineMode, Lasso, Patch, SelectionOp, Tool, Xform};
use std::collections::{HashMap, HashSet};
use vstd::prelude::*;

verus! {

broadcast use vstd::std_specs::hash::group_hash_axioms;

/// 40 and 0.35, the brush size and its least part at full speed to start with.
pub const BRUSH_SIZE: u32 = 0x4220_0000;

pub const BRUSH_THINNEST: u32 = 0x3eb3_3333;

/// The size of the document to start with.
pub const START_WIDTH: u32 = 1280;

pub const START_HEIGHT: u32 = 800;

/// Layers with their stored bytes, to be uploaded in the next frame.
pub struct PendingUpload {
    pub size: Size,
    pub layers: Vec<(LayerId, Vec<u8>)>,
}

/// The selection, and the one that is being made.
pub struct Selection {
    pub drag_start: Option<Point>,
    pub op_pending: Option<SelectionOp>,
    pub active: bool,
    /// The selection before the one being made, to combine it with.
    pub base: Vec<Scalar>,
    pub mode: CombineMode,
    pub lasso: Lasso,
    pub feather_radius: Scalar,
}

/// A warp in progress.
pub struct Liquify {
    /// The straight pixels that are warped.
    pub src: Vec<Scalar>,
    /// How far each pixel is displaced.
    pub disp: Vec<[Scalar; 2]>,
    /// 0 pushes, 1 twirls, 2 puckers, 3 bloats.
    pub mode: u8,
}

/// The settings of fills and samples.
#[derive(Clone, Copy, PartialEq, Eq, Structural, Debug)]
pub struct FillSettings {
    pub tolerance: Scalar,
    pub contiguous: bool,
    pub sample_all: bool,
}

pub struct PigmentApp {
    pub doc: Document,
    pub view: ViewTransform,
    pub background_id: LayerId,
    pub pending: Option<PendingUpload>,
    pub tool: Tool,
    pub brush: Brush,
    pub fill: FillSettings,
    pub needs_fit: bool,
    pub stroke: Stroke,
    pub clone_source: Option<Point>,
    /// From the source to the first dab of a clone or heal stroke.
    pub clone_offset: Point,
    pub heal_mask: Vec<bool>,
    pub patch: Patch,
    pub tone_mask: Vec<Scalar>,
    pub liquify: Liquify,
    /// 0 saturates, 1 desaturates, 2 blurs, 3 sharpens.
    pub detail_mode: u8,
    pub undo_count: u32,
    pub redo_count: u32,
    pub force_composite: bool,
    pub last_fingerprint: u64,
    pub selection: Selection,
    pub xform: Xform,
    /// Whole-canvas pixels, faded by the selection they were copied with.
    pub clipboard: Option<Vec<Scalar>>,
    pub clipboard_size: Size,
    pub resize_w: u32,
    pub resize_h: u32,
    pub masked_layers: HashSet<u64>,
    pub edit_mask: bool,
    pub blend_if: HashMap<u64, [Scalar; 4]>,
    /// The layers that are clipped to the one below.
    pub clipped_layers: HashSet<u64>,
    pub styles: StyleMaps,
    pub panels: PanelVis,
    pub filters: FilterSettings,
    /// The fingerprints of what text and vector layers last showed.
    pub gen_fp: HashMap<u64, u64>,
    /// How far text and vector layers were moved.
    pub gen_offset: HashMap<u64, Point>,
    pub shape_drag: Option<LayerId>,
    pub grad_start: Option<Point>,
    pub gradient: GradientEditor,
    pub grad_fill_pending: Option<(Point, Point)>,
    pub pattern: Option<Pattern>,
    pub pattern_scale: Scalar,
    pub pattern_offset: (Scalar, Scalar),
    pub pat_fill_pending: bool,
    /// When the source of each linked layer was last changed, as far as it was
    /// shown.
    pub linked_contours: HashMap<u64, i128>,
    pub font_families: Vec<String>,
    pub comps: Vec<LayerComp>,
    pub new_comp_name: String,
    pub smart_filters: HashMap<u64, SmartFilterStack>,
}

/// Whether a canvas of this size can be addressed, stored bytes and all.
pub open spec fn canvas_fits(size: Size) -> bool {
    grid_fits(size.width as int, size.height as int, 8)
}

impl PigmentApp {
    pub open spec fn wf(self) -> bool {
        &&& self.doc.wf()
        &&& canvas_fits(self.doc.size)
        &&& canvas_fits(self.clipboard_size)
        &&& self.clipboard matches Some(c) ==> c@.len() == 4 * (self.clipboard_size.width
            * self.clipboard_size.height)
        &&& self.pattern matches Some(p) ==> p.wf()
    }

    /// The layer that edits go to.
    pub open spec fn spec_active_id(self) -> LayerId {
        match self.doc.active_layer {
            Some(id) => id,
            None => self.background_id,
        }
    }

    /// The layer that edits go to.
    pub fn active_id(&self) -> (r: LayerId)
        ensures
            r == self.spec_active_id(),
    {
        self.doc.active_layer.unwrap_or(self.background_id)
    }

    /// Nothing is going on: no stroke, no selection, no clipboard, nothing
    /// attached to any layer.
    pub open spec fn idle(self) -> bool {
        &&& self.stroke == (Stroke {
            last: None,
            residual: Scalar { bits: 0 },
            dirty: None,
            wet: false,
        })
        &&& self.clone_source is None
        &&& self.clone_offset == (Point { x: Scalar { bits: 0 }, y: Scalar { bits: 0 } })
        &&& self.heal_mask@.len() == 0
        &&& self.tone_mask@.len() == 0
        &&& self.patch.outline.points@.len() == 0
        &&& self.patch.region@.len() == 0
        &&& self.patch.anchor is None
        &&& self.patch.from is None
        &&& self.liquify.src@.len() == 0
        &&& self.liquify.disp@.len() == 0
        &&& self.undo_count == 0
        &&& self.redo_count == 0
        &&& self.selection.drag_start is None
        &&& self.selection.op_pending is None
        &&& !self.selection.active
        &&& self.selection.base@.len() == 0
        &&& self.selection.lasso.points@.len() == 0
        &&& !self.xform.active
        &&& self.clipboard is None
        &&& self.masked_layers@ == Set::<u64>::empty()
        &&& !self.edit_mask
        &&& self.blend_if@ == Map::<u64, [Scalar; 4]>::empty()
        &&& self.clipped_layers@ == Set::<u64>::empty()
        &&& forall|id: LayerId| (#[trigger] self.styles.of(id)).none()
        &&& self.gen_fp@ == Map::<u64, u64>::empty()
        &&& self.gen_offset@ == Map::<u64, Point>::empty()
        &&& self.shape_drag is None
        &&& self.grad_start is None
        &&& self.grad_fill_pending is None
        &&& self.pattern is None
        &&& !self.pat_fill_pending
        &&& self.linked_contours@ == Map::<u64, i128>::empty()
        &&& self.font_families@.len() == 0
        &&& self.comps@.len() == 0
        &&& self.new_comp_name@.len() == 0
        &&& self.smart_filters@ == Map::<u64, SmartFilterStack>::empty()
    }

    /// The editor as it starts, with a background whose stored bytes are given.
    pub fn new(background: Vec<u8>) -> (r: PigmentApp)
        ensures
            r.wf(),
            r.idle(),
            r.doc.size == (Size { width: START_WIDTH, height: START_HEIGHT }),
            r.doc.layers.layers@.len() == 1,
            r.doc.layers.layers@[0].fresh(LayerId(1), "Background"@, LayerKind::Raster),
            r.doc.active_layer == Some(LayerId(1)),
            r.background_id == LayerId(1),
            r.pending matches Some(p) && p.size == r.doc.size && p.layers@.len() == 1
                && p.layers@[0].0 == LayerId(1) && p.layers@[0].1 == background,
            r.view.pan == (Point { x: Scalar { bits: 0 }, y: Scalar { bits: 0 } }),
            r.view.zoom.bits == ONE,
            r.needs_fit,
            r.force_composite,
            r.last_fingerprint == 0,
            r.tool is Brush,
            r.brush == (Brush {
                color: Rgb8 { r: 20, g: 120, b: 230 },
                size: Scalar { bits: BRUSH_SIZE },
                hardness: Scalar { bits: HALF },
                opacity: Scalar { bits: ONE },
                speed_dynamics: false,
                min_size_scale: Scalar { bits: BRUSH_THINNEST },
            }),
            r.fill == (FillSettings {
                tolerance: Scalar { bits: S0_10 },
                contiguous: true,
                sample_all: false,
            }),
            r.patch.source_mode,
            r.liquify.mode == 0,
            r.detail_mode == 0,
            r.selection.mode is Replace,
            r.selection.feather_radius.bits == S2,
            r.xform == (Xform {
                active: false,
                translate: Point { x: Scalar { bits: 0 }, y: Scalar { bits: 0 } },
                scale: Scalar { bits: ONE },
            }),
            r.patch.offset == (Point { x: Scalar { bits: 0 }, y: Scalar { bits: 0 } }),
            r.clipboard_size == (Size { width: 1, height: 1 }),
            r.resize_w == START_WIDTH,
            r.resize_h == START_HEIGHT,
            r.panels == (PanelVis { tool_options: true, tools: true, properties: true }),
            r.gradient.color_stops@ == preset_colors(0),
            r.gradient.opacity_stops@ == preset_opacities(0),
            r.gradient.kind is Linear,
            r.gradient.dither,
            !r.gradient.fill_layer,
            r.gradient.sel_color == 0,
            r.gradient.sel_opacity == 0,
            r.filters == FilterSettings::starting(),
            r.pattern_scale.bits == ONE,
            r.pattern_offset == (Scalar { bits: 0 }, Scalar { bits: 0 }),
    {
        let size: Size = Size { width: START_WIDTH, height: START_HEIGHT };
        let doc: Document = Document::new(size);
        let background_id: LayerId = doc.layers.layers[0].id;
        let mut staged: Vec<(LayerId, Vec<u8>)> = Vec::new();
        staged.push((background_id, background));
        PigmentApp {
            doc,
            view: ViewTransform::default(),
            background_id,
            pending: Some(PendingUpload { size, layers: staged }),
            tool: Tool::Brush,
            brush: Brush {
                color: Rgb8 { r: 20, g: 120, b: 230 },
                size: Scalar { bits: BRUSH_SIZE },
                hardness: Scalar { bits: HALF },
                opacity: Scalar { bits: ONE },
                speed_dynamics: false,
                min_size_scale: Scalar { bits: BRUSH_THINNEST },
            },
            fill: FillSettings {
                tolerance: Scalar { bits: S0_10 },
                contiguous: true,
                sample_all: false,
            },
            needs_fit: true,
            stroke: Stroke::default(),
            clone_source: None,
            clone_offset: Point::zero(),
            heal_mask: Vec::new(),
            patch: Patch::new(),
            tone_mask: Vec::new(),
            liquify: Liquify { src: Vec::new(), disp: Vec::new(), mode: 0 },
            detail_mode: 0,
            undo_count: 0,
            redo_count: 0,
            force_composite: true,
            last_fingerprint: 0,
            selection: Selection {
                drag_start: None,
                op_pending: None,
                active: false,
                base: Vec::new(),
                mode: CombineMode::Replace,
                lasso: Lasso::new(),
                feather_radius: Scalar { bits: S2 },
            },
            xform: Xform::default(),
            clipboard: None,
            clipboard_size: Size { width: 1, height: 1 },
            resize_w: START_WIDTH,
            resize_h: START_HEIGHT,
            masked_layers: HashSet::new(),
            edit_mask: false,
            blend_if: HashMap::new(),
            clipped_layers: HashSet::new(),
            styles: StyleMaps::new(),
            panels: PanelVis::default(),
            filters: FilterSettings::default(),
            gen_fp: HashMap::new(),
            gen_offset: HashMap::new(),
            shape_drag: None,
            grad_start: None,
            gradient: GradientEditor::default(),
            grad_fill_pending: None,
            pattern: None,
            pattern_scale: Scalar { bits: ONE },
            pattern_offset: (Scalar::zero(), Scalar::zero()),
            pat_fill_pending: false,
            linked_contours: HashMap::new(),
            font_families: Vec::new(),
            comps: Vec::new(),
            new_comp_name: String::new(),
            smart_filters: HashMap::new(),
        }
    }
}

} // verus!
