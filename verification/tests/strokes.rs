use pigment::editor::PigmentApp;
use pigment::editor_retouch::{Retouch, RetouchWork};
use pigment::editor_tools::{Pointer, WarpStamp};
use pigment::geometry::{Point, Size};
use pigment::half_float::f32_to_f16_bytes;
use pigment::layer::LayerId;
use pigment::retouch::CloneJob;
use pigment::scalar::Scalar;
use pigment::tools::{
    detail_label, mode_from_modifiers, negated, tone_label, CombineMode, PatchPlan, Tool, Xform,
};

fn s(x: f32) -> Scalar {
    Scalar::from_bits(x.to_bits())
}

fn f(x: Scalar) -> f32 {
    f32::from_bits(x.bits)
}

fn at(x: f32, y: f32) -> Point {
    Point { x: s(x), y: s(y) }
}

fn length(p: Point) -> Scalar {
    s(f(p.x).hypot(f(p.y)))
}

fn editor(width: u32, height: u32) -> PigmentApp {
    let mut app = PigmentApp::new(Vec::new());
    app.open_image(Size { width, height }, &vec![0; (width * height * 4) as usize], &|x| x);
    app
}

fn cloned(r: Retouch) -> CloneJob {
    match r.work {
        Some(RetouchWork::Clone(job)) => job,
        _ => panic!("expected a clone"),
    }
}

fn down(x: f32, y: f32) -> Pointer {
    Pointer { at: Some(at(x, y)), pressed: false, released: false, alt: false }
}

fn up() -> Pointer {
    Pointer { at: None, pressed: false, released: true, alt: false }
}

#[test]
fn a_stroke_lays_dabs_at_its_spacing() {
    let mut app = editor(100, 100);
    app.brush.size = s(20.0); // dabs are 3 apart
    let (t, r) = app.brush_frame(down(10.0, 10.0), s(0.016), &length);
    let t = t.unwrap();
    assert!(t.begin_command && t.wet_begin);
    assert_eq!(t.spots, vec![at(10.0, 10.0)]);
    assert!(!r.commit_command);
    let (t, _) = app.brush_frame(down(17.0, 10.0), s(0.016), &length);
    let t = t.unwrap();
    assert!(!t.begin_command && !t.wet_begin);
    let xs: Vec<f32> = t.spots.iter().map(|p| f(p.x)).collect();
    assert_eq!(xs, [10.0, 13.0, 16.0]);
    // The next dab is 2 past where the pointer is.
    assert_eq!(f(app.stroke.residual), 2.0);
    let dabs = app.paint_dabs(&t, &|x: Scalar| x);
    assert_eq!(dabs.len(), 3);
    assert_eq!(f(dabs[0].radius), 10.0);
    assert_eq!(f(dabs[0].color[2]), 230.0 / 255.0);
    assert_eq!(f(dabs[0].color[3]), 1.0);
    // A move too short for anything.
    let (t, _) = app.brush_frame(down(17.0, 10.0), s(0.016), &length);
    assert!(t.unwrap().spots.is_empty());
    let (t, r) = app.brush_frame(up(), s(0.016), &length);
    assert!(t.is_none());
    assert!(r.commit_command && r.wet_end);
    assert!(app.stroke.last.is_none() && !app.stroke.wet);
    assert_eq!(f(app.stroke.residual), 0.0);
}

// A mask is painted at once, outside the history; the eraser uses no wet layer.
#[test]
fn masks_and_the_eraser_paint_otherwise() {
    let mut app = editor(10, 10);
    app.brush.opacity = s(0.25);
    app.tool = Tool::Eraser;
    let (t, _) = app.brush_frame(down(1.0, 1.0), s(0.016), &length);
    let t = t.unwrap();
    assert!(t.begin_command && !t.wet_begin);
    assert_eq!(f(app.paint_dabs(&t, &|x: Scalar| x)[0].color[3]), 0.25);
    // The pointer is lost.
    let lost = Pointer { at: None, pressed: false, released: false, alt: false };
    let (_, r) = app.brush_frame(lost, s(0.016), &length);
    assert!(r.commit_command && !r.wet_end);
    app.tool = Tool::Brush;
    app.add_mask(false);
    app.edit_mask = true;
    let (t, _) = app.brush_frame(down(1.0, 1.0), s(0.016), &length);
    let t = t.unwrap();
    assert!(!t.begin_command && !t.wet_begin);
}

#[test]
fn fast_strokes_are_thin() {
    let mut app = editor(10, 10);
    app.brush.speed_dynamics = true;
    app.brush_frame(down(0.0, 0.0), s(0.01), &length);
    // 12.5 pixels in a hundredth of a second are half of full speed.
    let (t, _) = app.brush_frame(down(12.5, 0.0), s(0.01), &length);
    let want = 1.0 - 0.5 * (1.0 - 0.35f32);
    assert!((f(t.unwrap().size_scale) - want).abs() < 1e-6);
}

#[test]
fn a_clone_needs_a_source_and_keeps_its_offset() {
    let mut app = editor(50, 50);
    app.tool = Tool::Clone;
    let (t, _) = app.clone_frame(down(5.0, 5.0), &length);
    assert!(t.is_none());
    let alt = Pointer { alt: true, pressed: true, ..down(4.0, 6.0) };
    let (t, _) = app.clone_frame(alt, &length);
    assert!(t.is_none());
    assert_eq!(app.clone_source, Some(at(4.0, 6.0)));
    let (t, _) = app.clone_frame(down(14.0, 7.0), &length);
    assert!(t.unwrap().begin_command);
    assert_eq!(app.clone_offset, at(10.0, 1.0));
    app.clone_frame(down(20.0, 7.0), &length);
    assert_eq!(app.clone_offset, at(10.0, 1.0));
    let (_, r) = app.clone_frame(up(), &length);
    assert!(r.commit_command);
}

#[test]
fn a_spot_heal_hands_its_marks_out() {
    let mut app = editor(9, 5);
    app.tool = Tool::SpotHeal;
    app.brush.size = s(2.0);
    app.force_composite = false;
    assert!(app.heal_frame(down(2.5, 2.5), false, &length).is_none());
    assert!(app.heal_frame(down(5.5, 2.5), false, &length).is_none());
    assert!(!app.force_composite);
    let marks = app.heal_frame(up(), false, &length).unwrap();
    assert!(app.force_composite);
    assert!(app.heal_mask.is_empty());
    let row: Vec<bool> = marks[18..27].to_vec();
    assert_eq!(row, [false, true, true, true, true, true, true, false, false]);
    assert!(marks[9 + 2] && !marks[2]);
    // Nothing marked, nothing to do.
    assert!(app.heal_frame(up(), false, &length).is_none());
}

#[test]
fn a_heal_takes_the_texture_at_its_offset() {
    let mut app = editor(4, 1);
    app.tool = Tool::Heal;
    app.brush.size = s(0.5);
    assert!(app.heal_frame(down(2.5, 0.5), true, &length).is_none());
    assert!(app.heal_mask.is_empty());
    app.heal_frame(Pointer { alt: true, pressed: true, ..down(0.5, 0.5) }, true, &length);
    app.heal_frame(down(2.5, 0.5), true, &length);
    let marks = app.heal_frame(up(), true, &length).unwrap();
    assert_eq!(marks, [false, false, true, false]);
    let px: Vec<Scalar> = [0.25f32, 0.5, 0.75, 1.0]
        .iter()
        .flat_map(|g| [s(*g), s(*g), s(*g), s(1.0)])
        .collect();
    let bytes = f32_to_f16_bytes(&px);
    let heal = app.do_heal(&marks, Some(&bytes));
    assert_eq!(heal.label, "Healing Brush");
    let job = cloned(heal);
    assert_eq!(job.mask, marks);
    assert_eq!(f(job.src[2 * 4]), 0.25);
    // The patch does the same within a selection.
    let plan = PatchPlan { region: vec![true; 4], offset: [s(2.0), s(0.0)] };
    let sel = [s(1.0), s(1.0), s(1.0), s(0.5)];
    let patch = app.do_patch(&plan, Some(&bytes), Some(&sel)).unwrap();
    assert_eq!(patch.label, "Patch");
    assert_eq!(cloned(patch).mask, [false, false, true, false]);
    assert!(app.do_heal(&marks, None).work.is_none());
    assert!(app.do_patch(&plan, None, None).unwrap().work.is_none());
    let nothing = PatchPlan { region: vec![false; 4], offset: [s(2.0), s(0.0)] };
    assert!(app.do_patch(&nothing, Some(&bytes), None).is_none());
    let elsewhere = PatchPlan { region: vec![true; 3], offset: [s(2.0), s(0.0)] };
    assert!(app.do_patch(&elsewhere, Some(&bytes), None).is_none());
}

#[test]
fn retouches_are_solved_on_straight_pixels() {
    let mut app = editor(1, 1);
    let bytes = f32_to_f16_bytes(&[s(0.25), s(0.5), s(0.0), s(0.5)]);
    let straight = vec![s(0.5), s(1.0), s(0.0), s(0.5)];
    let r = app.do_spot_heal(vec![true], Some(&bytes));
    assert_eq!(r.label, "Spot Heal");
    match r.work {
        Some(RetouchWork::SpotHeal { image, marks }) => {
            assert_eq!((image, marks), (straight.clone(), vec![true]));
        }
        _ => panic!("expected a spot heal"),
    }
    let r = app.do_content_fill(vec![true], Some(&bytes));
    assert_eq!(r.label, "Content-Aware Fill");
    match r.work {
        Some(RetouchWork::ContentFill { image, marks }) => {
            assert_eq!((image, marks), (straight.clone(), vec![true]));
        }
        _ => panic!("expected a fill"),
    }
    for (burn, label, want) in [(false, "Dodge", 0.25), (true, "Burn", -0.25)] {
        let r = app.do_dodge_burn(vec![s(0.25)], burn, Some(&bytes));
        assert_eq!(r.label, label);
        match r.work {
            Some(RetouchWork::DodgeBurn { image, amount }) => {
                assert_eq!((image, amount), (straight.clone(), vec![s(want)]));
            }
            _ => panic!("expected tones"),
        }
    }
    for (mode, label, want) in [(0, "Saturate", 0.25), (1, "Desaturate", -0.25)] {
        app.detail_mode = mode;
        let r = app.do_detail(vec![s(0.25)], Some(&bytes));
        assert_eq!(r.label, label);
        match r.work {
            Some(RetouchWork::Sponge { image, amount }) => {
                assert_eq!((image, amount), (straight.clone(), vec![s(want)]));
            }
            _ => panic!("expected a sponge"),
        }
    }
    for (mode, label, want) in [(2, "Blur", false), (3, "Sharpen", true)] {
        app.detail_mode = mode;
        let r = app.do_detail(vec![s(0.25)], Some(&bytes));
        assert_eq!(r.label, label);
        match r.work {
            Some(RetouchWork::BlurSharpen { image, cover, sharpen }) => {
                assert_eq!((image, cover, sharpen), (straight.clone(), vec![s(0.25)], want));
            }
            _ => panic!("expected detail"),
        }
    }
    assert!(app.do_detail(vec![s(0.25)], None).work.is_none());
}

#[test]
fn tones_build_up() {
    let mut app = editor(3, 1);
    app.tool = Tool::Dodge;
    app.brush.size = s(2.0);
    app.tonal_frame(down(1.5, 0.5), &length);
    // At the centre, 0.4 of the full opacity.
    assert_eq!(f(app.tone_mask[1]), 0.4);
    let tones = app.tonal_frame(up(), &length).unwrap();
    assert_eq!(f(tones[1]), 0.4);
    assert_eq!(f(tones[0]), 0.0);
    assert_eq!(f(negated(&tones)[1]), -0.4);
    app.tool = Tool::Detail;
    app.tonal_frame(down(1.5, 0.5), &length);
    assert_eq!(f(app.tone_mask[1]), 0.5);
    assert_eq!((tone_label(true), tone_label(false)), ("Burn", "Dodge"));
    assert_eq!(detail_label(0), "Saturate");
    assert_eq!(detail_label(1), "Desaturate");
    assert_eq!(detail_label(2), "Blur");
    assert_eq!(detail_label(3), "Sharpen");
}

#[test]
fn the_warp_brush_stamps() {
    let mut app = editor(2, 1);
    app.tool = Tool::Liquify;
    assert_eq!(app.liquify_stamp(at(1.0, 0.0), &length), None);
    app.liquify_capture(Some(&[0; 16]));
    assert_eq!(app.liquify.src, vec![s(0.0); 8]);
    assert_eq!(app.liquify.disp, vec![[s(0.0), s(0.0)]; 2]);
    assert!(app.liquify_apply());
    // A push needs a way to go.
    assert_eq!(app.liquify_stamp(at(1.0, 0.0), &length), None);
    app.liquify_frame(down(1.0, 0.0));
    assert_eq!(
        app.liquify_stamp(at(3.0, 0.0), &length),
        Some(WarpStamp::Push { by: at(2.0, 0.0), strength: s(1.0) })
    );
    app.brush.opacity = s(0.0);
    app.liquify.mode = 1;
    assert_eq!(
        app.liquify_stamp(at(3.0, 0.0), &length),
        Some(WarpStamp::Twirl { angle: s(0.08 * 0.05) })
    );
    app.liquify.mode = 3;
    assert_eq!(
        app.liquify_stamp(at(3.0, 0.0), &length),
        Some(WarpStamp::Pinch { direction: s(-1.0), amount: s(0.04 * 0.05) })
    );
    app.liquify_frame(up());
    assert!(app.liquify.src.is_empty() && app.liquify.disp.is_empty());
    assert!(!app.liquify_apply());
}

#[test]
fn a_layer_is_moved_and_scaled() {
    let mut x = Xform::default();
    assert_eq!(x.frame(true, Some(at(4.0, -2.0)), false, false, s(2.0)), (true, false));
    assert_eq!(x.translate, at(2.0, -1.0));
    assert_eq!(x.frame(false, Some(at(0.0, 100.0)), false, true, s(2.0)), (false, false));
    assert_eq!(f(x.scale), 1.0 - 100.0 * 0.005);
    assert_eq!(x.frame(false, Some(at(0.0, 1e9)), false, true, s(2.0)), (false, false));
    assert_eq!(f(x.scale), 0.05);
    assert_eq!(x.frame(false, None, true, false, s(2.0)), (false, true));
    assert!(!x.active);
    // What was dragged stays for the frame that bakes it.
    assert_eq!(x.translate, at(2.0, -1.0));
    assert_eq!(x.frame(false, None, true, false, s(2.0)), (false, false));
}

#[test]
fn keys_and_labels() {
    assert_eq!(mode_from_modifiers(false, false), CombineMode::Replace);
    assert_eq!(mode_from_modifiers(true, false), CombineMode::Add);
    assert_eq!(mode_from_modifiers(false, true), CombineMode::Subtract);
    assert_eq!(mode_from_modifiers(true, true), CombineMode::Intersect);
    assert_eq!(Tool::Eraser.command_label(), "Erase");
    assert_eq!(Tool::Clone.command_label(), "Clone Stamp");
    assert_eq!(Tool::Heal.command_label(), "Brush");
    assert!(Tool::Liquify.brushy() && !Tool::Patch.brushy());
    assert_eq!(LayerId(3), LayerId(3));
}
