use pigment::comps::{apply_comp, capture_comp, comp_to_meta, meta_to_comp, LayerAttrs};
use pigment::layer::{BlendMode, Layer, LayerId};
use pigment::scalar::Scalar;
use std::collections::HashMap;

fn s(x: f32) -> Scalar {
    Scalar::from_bits(x.to_bits())
}

fn f(x: Scalar) -> f32 {
    f32::from_bits(x.bits)
}

fn blend(id: u32) -> BlendMode {
    BlendMode::from_shader_id(id)
}

const NORMAL: u32 = 0;
const MULTIPLY: u32 = 1;
const SCREEN: u32 = 2;
const OVERLAY: u32 = 3;
const DARKEN: u32 = 4;

fn layer(id: u64, visible: bool, opacity: f32, mode: u32) -> Layer {
    let mut l = Layer::raster(LayerId(id), format!("L{id}"));
    l.visible = visible;
    l.opacity = s(opacity);
    l.blend = blend(mode);
    l
}

// Every attribute survives capturing, editing and restoring exactly.
#[test]
fn capture_then_restore_round_trips() {
    let mut layers = vec![
        layer(1, true, 1.0, NORMAL),
        layer(2, false, 0.5, MULTIPLY),
        layer(3, true, 0.25, SCREEN),
    ];
    let comp = capture_comp("state".to_string(), &layers);
    for l in &mut layers {
        l.visible = !l.visible;
        l.opacity = s(0.9);
        l.blend = blend(OVERLAY);
    }
    apply_comp(&comp, &mut layers);
    assert!(layers[0].visible && (f(layers[0].opacity) - 1.0).abs() < 1e-9);
    assert_eq!(layers[0].blend, blend(NORMAL));
    assert!(!layers[1].visible && (f(layers[1].opacity) - 0.5).abs() < 1e-9);
    assert_eq!(layers[1].blend, blend(MULTIPLY));
    assert!(layers[2].visible && (f(layers[2].opacity) - 0.25).abs() < 1e-9);
    assert_eq!(layers[2].blend, blend(SCREEN));
}

// Restoring a comp after edits reverts them.
#[test]
fn restore_reverts_edits() {
    let mut layers = vec![layer(7, true, 1.0, NORMAL)];
    let comp = capture_comp("clean".to_string(), &layers);
    layers[0].visible = false;
    layers[0].opacity = s(0.1);
    layers[0].blend = blend(DARKEN);
    apply_comp(&comp, &mut layers);
    assert!(layers[0].visible);
    assert!((f(layers[0].opacity) - 1.0).abs() < 1e-9);
    assert_eq!(layers[0].blend, blend(NORMAL));
}

// The entry of a removed layer is ignored, and a layer added since is left alone.
// Layers are found by identity, not by position.
#[test]
fn restore_robust_to_add_remove_and_reorder() {
    let original = vec![layer(1, false, 0.2, MULTIPLY), layer(2, false, 0.3, SCREEN)];
    let comp = capture_comp("c".to_string(), &original);
    let mut now = vec![layer(9, true, 1.0, OVERLAY), layer(1, true, 1.0, NORMAL)];
    apply_comp(&comp, &mut now);

    let l1 = now.iter().find(|l| l.id == LayerId(1)).unwrap();
    assert!(!l1.visible);
    assert!((f(l1.opacity) - 0.2).abs() < 1e-9);
    assert_eq!(l1.blend, blend(MULTIPLY));

    let l9 = now.iter().find(|l| l.id == LayerId(9)).unwrap();
    assert!(l9.visible);
    assert!((f(l9.opacity) - 1.0).abs() < 1e-9);
    assert_eq!(l9.blend, blend(OVERLAY));

    assert_eq!(now.len(), 2);
}

// Saving and loading keep the attributes, under new identities; an entry whose
// layer is gone is dropped.
#[test]
fn meta_conversion_round_trips_and_remaps_ids() {
    let layers = vec![layer(10, false, 0.4, MULTIPLY), layer(20, true, 0.9, SCREEN)];
    let comp = capture_comp("v".to_string(), &layers);
    let meta = comp_to_meta(&comp);
    assert_eq!(meta.name, "v");
    assert_eq!(meta.entries.len(), 2);

    let mut id_map = HashMap::new();
    id_map.insert(10u64, LayerId(100));
    id_map.insert(20u64, LayerId(200));
    let back = meta_to_comp(&meta, &id_map);
    assert_eq!(back.entries.len(), 2);
    assert_eq!(back.entries[0].0, LayerId(100));
    assert_eq!(
        back.entries[0].1,
        LayerAttrs { visible: false, opacity: s(0.4), blend: blend(MULTIPLY) }
    );
    assert_eq!(back.entries[1].0, LayerId(200));

    let mut partial = HashMap::new();
    partial.insert(10u64, LayerId(100));
    let dropped = meta_to_comp(&meta, &partial);
    assert_eq!(dropped.entries.len(), 1);
    assert_eq!(dropped.entries[0].0, LayerId(100));
}

// Restoring twice is restoring once, and restoring at once changes nothing.
#[test]
fn restoring_again_changes_nothing() {
    let mut layers = vec![layer(1, false, 0.2, MULTIPLY), layer(2, true, 0.3, SCREEN)];
    let comp = capture_comp("c".to_string(), &layers);
    apply_comp(&comp, &mut layers);
    assert_eq!(layers, vec![layer(1, false, 0.2, MULTIPLY), layer(2, true, 0.3, SCREEN)]);
    layers[1].opacity = s(0.7);
    apply_comp(&comp, &mut layers);
    apply_comp(&comp, &mut layers);
    assert_eq!(layers, vec![layer(1, false, 0.2, MULTIPLY), layer(2, true, 0.3, SCREEN)]);
}
