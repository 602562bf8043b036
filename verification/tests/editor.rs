use pigment::editor::PigmentApp;
use pigment::editor_edit::{flip_bytes, resize_quality, Quality};
use pigment::editor_filters::FilterPass;
use pigment::editor_frame::FrameWork;
use pigment::editor_io::PsdLayer;
use pigment::editor_layers::{LayerAction, SmartFilterUi, SmartReapply};
use pigment::geometry::{Point, Size};
use pigment::half_float::{f16_bytes_to_f32, f32_to_f16_bytes};
use pigment::layer::{LayerId, LayerKind, TextDef, VectorDef};
use pigment::scalar::Scalar;
use pigment::smart_filter::SmartFilterKind;
use pigment::stroke::Dab;
use pigment::styles::StyleKind;
use pigment::tools::{CombineMode, SelectionOp, Tool};

fn s(x: f32) -> Scalar {
    Scalar::from_bits(x.to_bits())
}

fn f(x: Scalar) -> f32 {
    f32::from_bits(x.bits)
}

fn at(x: f32, y: f32) -> Point {
    Point { x: s(x), y: s(y) }
}

fn size(width: u32, height: u32) -> Size {
    Size { width, height }
}

fn scalars(v: &[f32]) -> Vec<Scalar> {
    v.iter().map(|x| s(*x)).collect()
}

fn stored(v: &[f32]) -> Vec<u8> {
    f32_to_f16_bytes(&scalars(v))
}

fn shown(bytes: &[u8]) -> Vec<f32> {
    f16_bytes_to_f32(bytes).into_iter().map(f).collect()
}

/// An editor with a document of this size.
fn editor(width: u32, height: u32) -> PigmentApp {
    let mut app = PigmentApp::new(Vec::new());
    app.open_image(size(width, height), &vec![0; (width * height * 4) as usize], &same);
    app
}

/// Linear light that is display space.
fn same(x: Scalar) -> Scalar {
    x
}

/// A gray pixel of each number, opaque.
fn grays(v: &[f32]) -> Vec<f32> {
    v.iter().flat_map(|g| [*g, *g, *g, 1.0]).collect()
}

const QUIET: FrameWork = FrameWork {
    painted: false,
    wet_begin: false,
    wet_end: false,
    bake: false,
    begin_command: false,
    undo: 0,
    redo: 0,
};

#[test]
fn the_editor_starts_with_a_background() {
    let app = PigmentApp::new(vec![1, 2, 3]);
    assert_eq!(app.doc.size, size(1280, 800));
    assert_eq!(app.doc.layers.layers.len(), 1);
    assert_eq!(app.doc.layers.layers[0].name, "Background");
    assert_eq!(app.active_id(), LayerId(1));
    let pending = app.pending.as_ref().unwrap();
    assert_eq!(pending.layers, vec![(LayerId(1), vec![1, 2, 3])]);
    assert_eq!(app.tool, Tool::Brush);
    assert_eq!(f(app.brush.size), 40.0);
    assert_eq!(f(app.filters.twirl_radius), 200.0);
}

// Uploads are kept until they have gone through.
#[test]
fn pending_pixels_are_not_lost() {
    let mut app = PigmentApp::new(vec![1]);
    assert!(!app.finish_upload(false));
    assert!(app.pending.is_some());
    app.force_composite = false;
    assert!(app.finish_upload(true));
    assert!(app.pending.is_none());
    assert!(app.force_composite);
    assert!(app.finish_upload(false));
}

#[test]
fn layers_are_added_moved_and_deleted() {
    let mut app = editor(2, 2);
    let a = app.new_layer();
    let b = app.new_layer();
    assert_eq!((a, b), (LayerId(2), LayerId(3)));
    let names: Vec<&str> = app.doc.layers.layers.iter().map(|l| l.name.as_str()).collect();
    assert_eq!(names, ["Background", "Layer 1", "Layer 2"]);
    assert_eq!(app.active_id(), b);
    let ids = |app: &PigmentApp| -> Vec<u64> { app.doc.layers.layers.iter().map(|l| l.id.0).collect() };
    assert!(app.apply_layer_action(LayerAction::MoveUp(LayerId(1))).is_none());
    assert_eq!(ids(&app), [2, 1, 3]);
    app.apply_layer_action(LayerAction::MoveUp(b));
    assert_eq!(ids(&app), [2, 1, 3]);
    app.apply_layer_action(LayerAction::MoveDown(LayerId(1)));
    assert_eq!(ids(&app), [1, 2, 3]);
    app.apply_layer_action(LayerAction::Nothing);
    // Deleting the active layer makes the top one active.
    assert_eq!(app.apply_layer_action(LayerAction::Delete(b)), Some(b));
    assert_eq!(app.active_id(), a);
    assert_eq!(app.apply_layer_action(LayerAction::Delete(LayerId(1))), Some(LayerId(1)));
    assert_eq!(app.background_id, a);
    // The last layer stays.
    assert!(app.apply_layer_action(LayerAction::Delete(a)).is_none());
    assert_eq!(ids(&app), [2]);
    // The identity of a deleted layer is not given again.
    assert_eq!(app.new_layer(), LayerId(4));
}

// The name of a comp is what was typed, without the blanks around it.
#[test]
fn comps_are_named() {
    let mut app = editor(1, 1);
    app.new_comp_name = " \u{2003}two words\t\n".to_string();
    app.capture();
    assert_eq!(app.comps[0].name, "two words");
    assert_eq!(app.new_comp_name, "");
    app.new_comp_name = "\u{00a0} ".to_string();
    app.capture();
    assert_eq!(app.comps[1].name, "Comp 2");
    // What is no white space is kept.
    app.new_comp_name = "\u{200b}x".to_string();
    app.capture();
    assert_eq!(app.comps[2].name, "\u{200b}x");
    app.doc.layers.layers[0].visible = false;
    app.force_composite = false;
    app.restore(0);
    assert!(app.doc.layers.layers[0].visible);
    assert!(app.force_composite);
    app.delete_comp(1);
    assert_eq!(app.comps.len(), 2);
}

#[test]
fn a_saved_document_opens_again() {
    let mut app = editor(3, 2);
    app.new_layer();
    app.doc.layers.layers[1].opacity = s(0.5);
    app.change_smart_filters(SmartFilterUi::Add(SmartFilterKind::Posterize { levels: 5 }));
    app.capture();
    app.apply_layer_action(LayerAction::Delete(LayerId(1)));
    let meta = app.doc_meta();
    let mut other = PigmentApp::new(Vec::new());
    // Styles and filters of the document before are gone, under every identity.
    other.new_layer();
    other.styles.enable_style(LayerId(2), StyleKind::Stroke, true);
    other.change_smart_filters(SmartFilterUi::Add(SmartFilterKind::Sharpen { amount: s(1.0) }));
    other.open_pigment(&meta, vec![vec![9; 48]]);
    assert!(other.styles.collect_runtime_styles(LayerId(2)).is_empty());
    assert!(other.smart_stack(LayerId(2)).is_empty());
    assert_eq!(other.doc.layers.next_id, 2);
    assert_eq!(other.doc.size, size(3, 2));
    assert_eq!(other.doc.layers.layers.len(), 1);
    assert_eq!(other.doc.layers.layers[0].id, LayerId(1));
    assert_eq!(other.doc.layers.layers[0].name, "Layer 1");
    assert_eq!(f(other.doc.layers.layers[0].opacity), 0.5);
    assert_eq!(other.smart_stack(LayerId(1)), app.smart_stack(LayerId(2)));
    // The comp's entry for the deleted layer is dropped.
    assert_eq!(other.comps[0].entries.len(), 1);
    assert_eq!(other.comps[0].entries[0].0, LayerId(1));
    assert_eq!(other.pending.as_ref().unwrap().layers, vec![(LayerId(1), vec![9; 48])]);
    let passes = other.smart_passes();
    assert_eq!(passes, vec![(LayerId(1), vec![(28, s(0.0), s(5.0))])]);
}

#[test]
fn a_photoshop_document_opens() {
    let mut app = editor(1, 1);
    app.add_mask(false);
    app.open_psd(
        0,
        4,
        vec![PsdLayer {
            name: "p".to_string(),
            opacity: s(0.25),
            visible: false,
            blend: 7,
            rgba8: vec![255, 255, 51, 255, 255, 0, 0, 0, 0, 0, 0, 0, 255, 255, 255, 255],
        }],
        &same,
    );
    assert_eq!(app.doc.size, size(1, 4));
    assert_eq!(app.doc.layers.next_id, 2);
    assert_eq!(app.doc.layers.layers.len(), 1);
    assert_eq!(app.doc.layers.layers[0].name, "p");
    assert_eq!(app.doc.layers.layers[0].blend.shader_id(), 7);
    assert!(app.masked_layers.is_empty());
    let staged = &app.pending.as_ref().unwrap().layers;
    assert_eq!(staged[0].0, LayerId(1));
    let px = shown(&staged[0].1);
    assert_eq!(px[..2], [1.0, 1.0]);
    assert_eq!(px[3..8], [1.0, 0.0, 0.0, 0.0, 0.0]);
    assert_eq!(px[12..], [1.0; 4]);
    // A file without layers gives an empty one.
    app.open_psd(2, 2, Vec::new(), &same);
    assert_eq!(app.doc.layers.layers.len(), 1);
    assert_eq!(app.pending.as_ref().unwrap().layers[0].1, vec![0; 32]);
}

#[test]
fn a_high_dynamic_range_image_opens_premultiplied() {
    let mut app = editor(1, 1);
    app.add_mask(false);
    app.open_exr(size(2, 1), &scalars(&[4.0, 2.0, 0.5, 0.5, 8.0, 1.0, 0.0, 1.0, 3.0]));
    assert_eq!(app.doc.size, size(2, 1));
    assert!(app.masked_layers.is_empty() && app.needs_fit);
    let staged = app.pending.as_ref().unwrap();
    assert_eq!(staged.size, size(2, 1));
    assert_eq!(shown(&staged.layers[0].1), [2.0, 1.0, 0.25, 0.5, 8.0, 1.0, 0.0, 1.0]);
}

#[test]
fn smart_filters_belong_to_raster_layers() {
    let mut app = editor(1, 1);
    let r = app.change_smart_filters(SmartFilterUi::Add(SmartFilterKind::Sharpen { amount: s(1.0) }));
    match r {
        Some(SmartReapply::Run(id, passes)) => {
            assert_eq!(id, LayerId(1));
            assert_eq!(passes, vec![(2, s(0.0), s(1.0))]);
        }
        _ => panic!("expected passes"),
    }
    let r = app.change_smart_filters(SmartFilterUi::Remove(0));
    assert!(matches!(r, Some(SmartReapply::Restore(LayerId(1)))));
    app.add_layer("v".to_string(), LayerKind::Vector(VectorDef {
        kind: 0,
        rect: [s(0.0); 4],
        color: [s(0.0); 4],
    }));
    let r = app.change_smart_filters(SmartFilterUi::Add(SmartFilterKind::Sharpen { amount: s(1.0) }));
    assert!(r.is_none());
}

#[test]
fn layer_flags_follow_the_active_layer() {
    let mut app = editor(1, 1);
    app.set_clipped(true);
    assert!(app.clipped_layers.contains(&1));
    app.set_clipped(false);
    assert!(app.clipped_layers.is_empty());
    app.set_blend_if(true);
    assert_eq!(app.blend_if[&1].map(f), [0.0, 1.0, 0.0, 1.0]);
    app.set_blend_if(false);
    assert!(app.blend_if.is_empty());
    assert!(!app.add_mask(true));
    app.edit_mask = true;
    assert!(app.paints_mask());
    app.delete_mask();
    assert!(!app.edit_mask && !app.paints_mask());
    app.selection.active = true;
    assert!(app.add_mask(true));
}

#[test]
fn a_selection_is_copied_cut_and_pasted() {
    let mut app = editor(2, 1);
    let bytes = stored(&grays(&[0.5, 1.0]));
    let sel = scalars(&[0.0, 0.75]);
    app.selection.active = true;
    app.copy_selection(Some(&bytes), Some(&sel));
    let clip: Vec<f32> = app.clipboard.as_ref().unwrap().iter().map(|v| f(*v)).collect();
    assert_eq!(clip, [0.0, 0.0, 0.0, 0.0, 0.75, 0.75, 0.75, 0.75]);
    let cut = app.cut_selection(Some(&bytes), Some(&sel)).unwrap();
    assert_eq!(shown(&cut), [0.5, 0.5, 0.5, 1.0, 0.0, 0.0, 0.0, 0.0]);
    let (id, pasted) = app.paste().unwrap();
    assert_eq!(id, LayerId(2));
    assert_eq!(app.doc.layers.layers[1].name, "Pasted");
    assert_eq!(shown(&pasted), clip);
    // On another canvas it is laid at the corner.
    app.open_image(size(1, 2), &[], &same);
    let (_, pasted) = app.paste().unwrap();
    assert_eq!(shown(&pasted), [0.0; 8]);
    app.clipboard = None;
    assert!(app.paste().is_none());
}

#[test]
fn the_canvas_is_resized_and_cropped() {
    let mut app = editor(3, 1);
    app.selection.active = true;
    let layers = vec![(LayerId(1), stored(&grays(&[0.25, 0.5, 1.0])))];
    let sel = scalars(&[0.0, 0.6, 1.0]);
    let b = app.crop_box(&sel).unwrap();
    assert_eq!((b.x0, b.y0, b.x1, b.y1), (1, 0, 3, 1));
    let mut other = editor(3, 1);
    other.selection.active = true;
    let cropped = app.crop(&layers, b);
    assert_eq!(app.doc.size, size(2, 1));
    assert_eq!(shown(&cropped[0].1), grays(&[0.5, 1.0]));
    assert!(!app.selection.active);
    let grown = other.resize_canvas(&layers, 4, 1);
    assert_eq!(other.doc.size, size(4, 1));
    assert_eq!(shown(&grown[0].1)[..12], grays(&[0.25, 0.5, 1.0])[..]);
    assert_eq!(shown(&grown[0].1)[12..], [0.0; 4]);
    assert!(other.crop_box(&scalars(&[1.0; 4])).is_none());
    assert_eq!(resize_quality(10, 5), Quality::Lanczos3);
    assert_eq!(resize_quality(10, 10), Quality::Bicubic);
}

#[test]
fn flipping_twice_gives_the_layer_back() {
    let bytes = stored(&grays(&[0.25, 0.5, 0.75, 1.0]));
    let across = flip_bytes(&bytes, size(2, 2), true);
    assert_eq!(shown(&across), grays(&[0.5, 0.25, 1.0, 0.75]));
    let down = flip_bytes(&bytes, size(2, 2), false);
    assert_eq!(shown(&down), grays(&[0.75, 1.0, 0.25, 0.5]));
    assert_eq!(flip_bytes(&across, size(2, 2), true), bytes);
}

#[test]
fn fills_stay_in_the_selection() {
    let mut app = editor(2, 1);
    let bytes = stored(&grays(&[0.0, 0.0]));
    let red = [s(1.0), s(0.0), s(0.0), s(1.0)];
    let sel = scalars(&[0.5, 0.75]);
    let out = app.do_fill(&bytes, &[true, true], Some(&sel), red);
    assert_eq!(shown(&out), [0.0, 0.0, 0.0, 1.0, 1.0, 0.0, 0.0, 1.0]);
    let grad = scalars(&[0.5, 0.5, 0.5, 0.5, 1.0, 1.0, 1.0, 1.0]);
    let out = app.do_gradient(&bytes, &grad, None);
    assert_eq!(shown(&out), [0.5, 0.5, 0.5, 1.0, 1.0, 1.0, 1.0, 1.0]);
    assert!(app.do_pattern_fill(&bytes, None).is_none());
    app.define_pattern(Some(&stored(&grays(&[0.25, 0.5]))), None);
    let out = app.do_pattern_fill(&bytes, Some(&scalars(&[1.0, 0.0]))).unwrap();
    assert_eq!(shown(&out), grays(&[0.25, 0.0]));
}

#[test]
fn selections_are_begun_and_combined() {
    let mut app = editor(2, 1);
    let combine = |a: &Vec<Scalar>, b: &Vec<Scalar>, m: CombineMode| match m {
        CombineMode::Replace => b.clone(),
        CombineMode::Add => a.iter().zip(b).map(|(x, y)| x.max(*y)).collect(),
        CombineMode::Subtract => a.iter().zip(b).map(|(x, y)| x.minus(*y)).collect(),
        CombineMode::Intersect => a.iter().zip(b).map(|(x, y)| x.min(*y)).collect(),
    };
    app.tool = Tool::SelectRect;
    app.marquee_start(at(0.0, 0.0), true, false, Some(scalars(&[1.0, 1.0])));
    // There was no selection: what was read does not count.
    assert_eq!(app.selection.base, scalars(&[0.0, 0.0]));
    assert_eq!(app.selection.mode, CombineMode::Add);
    let mask = app.marquee_mask(at(1.0, 1.0)).unwrap();
    assert_eq!(mask, scalars(&[1.0, 0.0]));
    assert_eq!(app.commit_selection(&mask, &combine), scalars(&[1.0, 0.0]));
    assert!(app.selection.active);
    app.marquee_stop();
    assert!(app.marquee_mask(at(1.0, 1.0)).is_none());
    let read = app.read_selection(Some(scalars(&[1.0, 0.5])));
    assert_eq!(read, scalars(&[1.0, 0.5]));
    assert_eq!(app.read_selection(None), scalars(&[0.0, 0.0]));
    let invert = |m: &Vec<Scalar>, _: u32, _: u32| -> Vec<Scalar> {
        m.iter().map(|v| s(1.0).minus(*v)).collect()
    };
    assert_eq!(app.map_selection(Some(read), &invert), Some(scalars(&[0.0, 0.5])));
    assert_eq!(app.wand_click(at(5.0, 0.0), false, false, None), None);
    assert_eq!(app.wand_click(at(1.5, 0.0), false, true, Some(scalars(&[1.0, 1.0]))), Some((1, 0)));
    assert_eq!(
        app.do_magic_wand(Some(vec![false, true]), &combine),
        Some(scalars(&[1.0, 0.0]))
    );
    app.lasso_start(Some(at(1.0, 1.0)), true, true, None);
    assert_eq!(app.selection.lasso.points, vec![at(1.0, 1.0)]);
    assert_eq!(app.selection.mode, CombineMode::Intersect);
    app.select(SelectionOp::Deselect);
    assert!(!app.selection.active);
    assert!(app.map_selection(None, &invert).is_none());
}

#[test]
fn the_eyedropper_takes_the_straight_colour() {
    let mut app = editor(1, 1);
    app.force_composite = false;
    let same = |x: Scalar| x;
    app.do_eyedrop(Some([s(0.25), s(0.5), s(0.0), s(0.5)]), &same);
    let c = app.brush.color;
    assert_eq!((c.r, c.g, c.b), (128, 255, 0));
    // A pixel without alpha has no colour.
    app.do_eyedrop(Some([s(1.0), s(1.0), s(1.0), s(0.01)]), &same);
    assert_eq!(app.brush.color, c);
    assert!(!app.force_composite);
    app.fill.sample_all = true;
    app.do_eyedrop(None, &same);
    assert!(app.force_composite);
}

#[test]
fn shapes_and_gradients_are_dragged() {
    let mut app = editor(8, 8);
    app.tool = Tool::ShapeEllipse;
    let id = app.shape_start(at(5.0, 2.0));
    app.shape_drag_to(at(1.0, 6.0));
    assert_eq!(app.doc.layers.layers[1].name, "Shape");
    match &app.doc.layers.layers[1].kind {
        LayerKind::Vector(v) => {
            assert_eq!(v.kind, 1);
            assert_eq!(v.rect.map(f), [1.0, 2.0, 4.0, 4.0]);
            assert_eq!(f(v.color[0]), 20.0 / 255.0);
            assert_eq!(f(v.color[3]), 1.0);
        }
        other => panic!("expected a vector layer, got {other:?}"),
    }
    assert_eq!(app.active_id(), id);
    app.shape_stop();
    app.shape_drag_to(at(0.0, 0.0));
    assert!(matches!(&app.doc.layers.layers[1].kind, LayerKind::Vector(v) if f(v.rect[0]) == 1.0));
    assert_eq!(app.gradient_stop(Some(at(1.0, 1.0))), None);
    app.gradient_start(at(0.0, 0.0));
    assert_eq!(app.gradient_stop(Some(at(1.0, 1.0))), Some((at(0.0, 0.0), at(1.0, 1.0))));
    app.gradient_start(at(0.0, 0.0));
    assert_eq!(app.gradient_stop(None), None);
    assert_eq!(app.gradient_stop(Some(at(1.0, 1.0))), None);
}

fn text(t: &str, family: Option<&str>) -> LayerKind {
    LayerKind::Text(TextDef {
        text: t.to_string(),
        family: family.map(|x| x.to_string()),
        font_px: s(12.0),
        align: 0,
        color: [s(0.0); 4],
    })
}

// A layer is drawn again when what it shows changes, the font among it, and it
// stays where it was moved.
#[test]
fn generated_layers_are_drawn_when_they_change() {
    let mut app = editor(2, 1);
    let id = app.add_layer("t".to_string(), text("a", None));
    assert_eq!(app.sync_generated_layers(), vec![1]);
    assert!(app.sync_generated_layers().is_empty());
    app.doc.layers.layers[1].kind = text("a", Some("Serif"));
    assert_eq!(app.sync_generated_layers(), vec![1]);
    app.doc.layers.layers[1].name = "other".to_string();
    assert!(app.sync_generated_layers().is_empty());
    assert!(app.curves_layers().is_empty());
    app.xform.translate = at(0.6, 0.0);
    app.end_frame(FrameWork { bake: true, ..QUIET }, 0);
    let px = scalars(&grays(&[0.5, 1.0]));
    let placed: Vec<f32> = app.place_generated(id, &px).into_iter().map(f).collect();
    assert_eq!(placed, [0.0, 0.0, 0.0, 0.0, 0.5, 0.5, 0.5, 1.0]);
    // Pixels of another layer stay.
    let placed: Vec<f32> = app.place_generated(LayerId(1), &px).into_iter().map(f).collect();
    assert_eq!(placed, grays(&[0.5, 1.0]));
}

#[test]
fn an_idle_frame_is_not_dirty() {
    let mut app = editor(4, 4);
    app.select(SelectionOp::All);
    let first = app.end_frame(QUIET, 5);
    assert!(first.dirty);
    assert_eq!(first.selection_op, Some(SelectionOp::All));
    assert!(first.xform.is_none());
    assert_eq!(first.dirty_rect, [0, 0, 4, 4]);
    let second = app.end_frame(QUIET, 5);
    assert!(!second.dirty);
    assert!(second.selection_op.is_none());
    assert!(app.end_frame(QUIET, 6).dirty);
    assert!(app.end_frame(FrameWork { undo: 1, ..QUIET }, 6).dirty);
    app.xform.active = true;
    app.xform.translate = at(2.0, 0.0);
    let dragged = app.end_frame(QUIET, 6);
    assert!(dragged.dirty);
    assert_eq!(dragged.xform.unwrap().1.map(f), [-0.5, 0.0]);
}

#[test]
fn history_is_taken_once() {
    let mut app = editor(1, 1);
    app.go_back(2);
    app.go_forward(3);
    assert_eq!(app.take_history(true, false, true, true), (3, 4));
    assert_eq!(app.take_history(true, true, true, false), (0, 1));
    assert_eq!(app.take_history(false, true, true, true), (0, 0));
}

#[test]
fn masks_are_painted_white() {
    let mut app = editor(1, 1);
    let dab = Dab {
        center: at(0.0, 0.0),
        radius: s(1.0),
        hardness: s(0.5),
        color: [s(0.25), s(0.5), s(0.75), s(0.5)],
    };
    let mut dabs = vec![dab];
    app.mask_dabs(&mut dabs);
    assert_eq!(dabs, vec![dab]);
    app.add_mask(false);
    app.edit_mask = true;
    app.tool = Tool::Eraser;
    app.mask_dabs(&mut dabs);
    assert_eq!(dabs, vec![dab]);
    app.tool = Tool::Brush;
    app.mask_dabs(&mut dabs);
    assert_eq!(dabs, vec![Dab { color: [s(1.0); 4], ..dab }]);
}

#[test]
fn linked_layers_follow_their_files() {
    let mut app = editor(1, 1);
    let a = app.place_contour_linked("art".to_string(), Some(10));
    let b = app.place_contour_linked("more".to_string(), None);
    app.place_contour("still".to_string());
    let names: Vec<&str> = app.doc.layers.layers.iter().map(|l| l.name.as_str()).collect();
    assert_eq!(names, ["Background", "art (linked)", "more (linked)", "still"]);
    let stats = vec![(a, 10), (b, 1), (LayerId(1), 99)];
    assert_eq!(app.due_links(&stats), vec![(b, 1)]);
    app.force_composite = false;
    app.links_shown(&vec![]);
    assert!(!app.force_composite);
    app.links_shown(&vec![(b, 1)]);
    assert!(app.force_composite);
    assert!(app.due_links(&stats).is_empty());
    assert_eq!(app.due_links(&vec![(a, 11)]), vec![(a, 11)]);
    app.apply_layer_action(LayerAction::Delete(a));
    app.prune_links();
    assert!(app.due_links(&vec![(a, 11)]).is_empty());
    assert_eq!(app.due_links(&vec![(b, 2)]), vec![(b, 2)]);
}

#[test]
fn filters_run_about_the_middle() {
    let mut app = editor(7, 4);
    app.force_composite = false;
    let zero = at(0.0, 0.0);
    assert_eq!(
        app.do_twirl(s(75.0), s(20.0)),
        FilterPass::Distort {
            kind: 8,
            center: at(3.5, 2.0),
            amount: s(75f32.to_radians()),
            radius: s(20.0),
            wave: zero
        }
    );
    assert!(app.force_composite);
    assert_eq!(
        app.do_ripple(s(8.0), s(40.0)),
        FilterPass::Distort {
            kind: 10,
            center: at(3.5, 2.0),
            amount: s(0.0),
            radius: s(0.0),
            wave: at(8.0, 40.0)
        }
    );
    assert!(matches!(app.do_polar(true), FilterPass::Distort { kind: 11, .. }));
    assert!(matches!(app.do_polar(false), FilterPass::Distort { kind: 12, .. }));
    assert!(matches!(app.do_pinch(s(0.5), s(1.0)), FilterPass::Distort { kind: 9, .. }));
    assert_eq!(
        app.do_radial_blur(false, s(15.0), 24),
        FilterPass::RadialBlur {
            center: at(3.5, 2.0),
            spin: false,
            amount: s(15.0 / 100.0),
            samples: 24
        }
    );
    assert!(matches!(
        app.do_radial_blur(true, s(12.5), 8),
        FilterPass::RadialBlur { spin: true, amount, .. } if f(amount) == 12.5f32.to_radians()
    ));
    // 0.017453292, pi / 180 in single precision.
    assert_eq!(
        app.do_motion_blur(s(1.0), s(12.0)),
        FilterPass::MotionBlur { angle: Scalar::from_bits(0x3c8e_fa35), distance: s(12.0) }
    );
    for degrees in [-180.0f32, -33.3, 0.0, 0.1, 45.0, 90.0, 123.456, 180.0, 359.9] {
        assert_eq!(
            app.do_motion_blur(s(degrees), s(1.0)),
            FilterPass::MotionBlur { angle: s(degrees.to_radians()), distance: s(1.0) }
        );
    }
    assert_eq!(
        app.do_filter(5, s(4.0), s(0.0)),
        FilterPass::Filter { kind: 5, radius: s(4.0), amount: s(0.0) }
    );
}
