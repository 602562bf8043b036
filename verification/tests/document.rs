use pigment::color::rgba8_to_f16_bytes;
use pigment::document::{load_layers, save_layers, stage_pixels, LayerMeta};
use pigment::half_float::f16_bytes_to_f32;
use pigment::layer::{Adjustment, CurvePoints, Layer, LayerId, LayerKind};
use pigment::scalar::Scalar;
use pigment::smart_filter::{SmartFilterKind, SmartFilterStack};
use pigment::styles::StyleMaps;
use serde_json::Value;
use std::collections::HashMap;

fn s(x: f32) -> Scalar {
    Scalar::from_bits(x.to_bits())
}

fn f(x: Scalar) -> f32 {
    f32::from_bits(x.bits)
}

fn linear(x: Scalar) -> Scalar {
    let c = f(x);
    s(if c <= 0.04045 { c / 12.92 } else { ((c + 0.055) / 1.055).powf(2.4) })
}

fn num(x: Scalar) -> Value {
    Value::from(f(x) as f64)
}

fn nums(x: &[Scalar]) -> Value {
    Value::from(x.iter().map(|v| num(*v)).collect::<Vec<Value>>())
}

fn as_num(v: &Value) -> Scalar {
    s(v.as_f64().unwrap() as f32)
}

fn as_nums<const N: usize>(v: &Value) -> [Scalar; N] {
    std::array::from_fn(|i| as_num(&v[i]))
}

fn object(fields: Vec<(&str, Value)>) -> Value {
    let mut m = serde_json::Map::new();
    for (k, v) in fields {
        m.insert(k.to_string(), v);
    }
    Value::from(m)
}

fn knots(pts: &[(Scalar, Scalar)]) -> Value {
    Value::from(pts.iter().map(|p| nums(&[p.0, p.1])).collect::<Vec<Value>>())
}

fn as_knots(v: &Value) -> Vec<(Scalar, Scalar)> {
    v.as_array().unwrap().iter().map(|p| (as_num(&p[0]), as_num(&p[1]))).collect()
}

fn adjustment_to_json(a: &Adjustment) -> Value {
    match a {
        Adjustment::Curves(cp) => object(vec![
            ("kind", Value::from("curves")),
            ("rgb", knots(&cp.rgb)),
            ("r", knots(&cp.r)),
            ("g", knots(&cp.g)),
            ("b", knots(&cp.b)),
        ]),
        Adjustment::ColorBalance { shadows, midtones, highlights, preserve_luminosity } => {
            object(vec![
                ("kind", Value::from("balance")),
                ("shadows", nums(shadows)),
                ("midtones", nums(midtones)),
                ("highlights", nums(highlights)),
                ("preserve_luminosity", Value::from(*preserve_luminosity)),
            ])
        }
        Adjustment::ChannelMixer { r, g, b, monochrome } => object(vec![
            ("kind", Value::from("mixer")),
            ("r", nums(r)),
            ("g", nums(g)),
            ("b", nums(b)),
            ("monochrome", Value::from(*monochrome)),
        ]),
        _ => panic!("not in these tests"),
    }
}

fn adjustment_from_json(v: &Value) -> Adjustment {
    match v["kind"].as_str().unwrap() {
        "curves" => Adjustment::Curves(CurvePoints {
            rgb: as_knots(&v["rgb"]),
            r: as_knots(&v["r"]),
            g: as_knots(&v["g"]),
            b: as_knots(&v["b"]),
        }),
        "balance" => Adjustment::ColorBalance {
            shadows: as_nums(&v["shadows"]),
            midtones: as_nums(&v["midtones"]),
            highlights: as_nums(&v["highlights"]),
            preserve_luminosity: v["preserve_luminosity"].as_bool().unwrap(),
        },
        _ => Adjustment::ChannelMixer {
            r: as_nums(&v["r"]),
            g: as_nums(&v["g"]),
            b: as_nums(&v["b"]),
            monochrome: v["monochrome"].as_bool().unwrap(),
        },
    }
}

/// Save a layer, write it as JSON, read that, and load it. The loaded layer's kind
/// is returned.
fn round_trip_layer(layer: Layer) -> LayerKind {
    let saved = save_layers(&vec![layer], &StyleMaps::new(), &HashMap::new());
    let m = &saved[0];
    let value = object(vec![
        ("id", Value::from(m.id)),
        ("name", Value::from(m.name.as_str())),
        ("blend", Value::from(m.blend)),
        ("opacity", num(m.opacity)),
        ("visible", Value::from(m.visible)),
        ("adjustment", m.adjustment.as_ref().map(adjustment_to_json).unwrap_or(Value::Null)),
    ]);
    let json = serde_json::to_string(&value).expect("serialize LayerMeta");
    let back: Value = serde_json::from_str(&json).expect("deserialize LayerMeta");
    let meta = LayerMeta {
        id: back["id"].as_u64().unwrap(),
        name: back["name"].as_str().unwrap().to_string(),
        blend: back["blend"].as_u64().unwrap() as u32,
        opacity: as_num(&back["opacity"]),
        visible: back["visible"].as_bool().unwrap(),
        styles: None,
        adjustment: if back["adjustment"].is_null() {
            None
        } else {
            Some(adjustment_from_json(&back["adjustment"]))
        },
        smart_filters: Vec::new(),
    };
    let mut loaded = load_layers(&vec![meta], 1);
    loaded.stack.layers.remove(0).kind
}

fn curves() -> CurvePoints {
    let k = |v: &[(f32, f32)]| v.iter().map(|p| (s(p.0), s(p.1))).collect();
    CurvePoints {
        rgb: k(&[(0.0, 0.1), (0.5, 0.7), (1.0, 0.9)]),
        r: k(&[(0.0, 0.0), (1.0, 0.8)]),
        g: k(&[(0.0, 0.2), (0.4, 0.5), (1.0, 1.0)]),
        b: k(&[(0.0, 0.05), (1.0, 0.95)]),
    }
}

// Every knot of the four curves survives.
#[test]
fn curves_adjustment_round_trips() {
    let layer = Layer::adjustment(LayerId(3), "Curves".to_string(), Adjustment::Curves(curves()));
    match round_trip_layer(layer) {
        LayerKind::Adjustment(Adjustment::Curves(back)) => assert_eq!(back, curves()),
        other => panic!("expected Curves adjustment, got {other:?}"),
    }
}

fn color_balance() -> Adjustment {
    Adjustment::ColorBalance {
        shadows: [0.2, -0.1, 0.3].map(s),
        midtones: [-0.4, 0.5, 0.0].map(s),
        highlights: [0.1, 0.1, -0.6].map(s),
        preserve_luminosity: false,
    }
}

// Every parameter of a colour balance survives.
#[test]
fn color_balance_adjustment_round_trips() {
    let layer = Layer::adjustment(LayerId(4), "Color Balance".to_string(), color_balance());
    match round_trip_layer(layer) {
        LayerKind::Adjustment(a) => assert_eq!(a, color_balance()),
        other => panic!("expected Color Balance adjustment, got {other:?}"),
    }
}

fn channel_mixer() -> Adjustment {
    Adjustment::ChannelMixer {
        r: [0.6, 0.3, 0.1, 0.05].map(s),
        g: [0.0, 1.2, -0.2, 0.0].map(s),
        b: [0.1, 0.0, 0.9, -0.1].map(s),
        monochrome: true,
    }
}

// Every coefficient of a channel mixer survives.
#[test]
fn channel_mixer_adjustment_round_trips() {
    let layer = Layer::adjustment(LayerId(5), "Channel Mixer".to_string(), channel_mixer());
    match round_trip_layer(layer) {
        LayerKind::Adjustment(a) => assert_eq!(a, channel_mixer()),
        other => panic!("expected Channel Mixer adjustment, got {other:?}"),
    }
}

// A raster layer has no adjustment and comes back as raster.
#[test]
fn raster_layer_has_no_adjustment() {
    let layer = Layer::raster(LayerId(6), "bg".to_string());
    assert!(matches!(round_trip_layer(layer), LayerKind::Raster));
}

// The background that the editor starts with is a gradient: red rises to the
// right, green downwards. Its stored bytes must not come out empty or uniform.
#[test]
fn default_background_upload_is_a_real_gradient() {
    let (w, h) = (64u32, 64u32);
    let mut rgba8 = Vec::new();
    for y in 0..h {
        for x in 0..w {
            rgba8.extend_from_slice(&[(x * 255 / (w - 1)) as u8, (y * 255 / (h - 1)) as u8, 128, 255]);
        }
    }
    let bytes = rgba8_to_f16_bytes(&rgba8, &linear);
    let expected_len = (w * h) as usize * 4 * 2;
    assert_eq!(bytes.len(), expected_len, "background buffer is empty/wrong size");
    let px: Vec<f32> = f16_bytes_to_f32(&bytes).into_iter().map(f).collect();
    let first = &px[0..4];
    assert!(
        px.chunks_exact(4).any(|p| p[0..4] != *first),
        "default background is uniform, not a gradient"
    );
}

#[test]
fn smart_filters_are_saved_with_their_layer() {
    let mut stack = SmartFilterStack::default();
    stack.add(SmartFilterKind::GaussianBlur { radius: s(3.5) });
    stack.add(SmartFilterKind::Posterize { levels: 6 });
    stack.toggle(0);
    let mut smart = HashMap::new();
    smart.insert(9u64, stack);
    let layers = vec![
        Layer::raster(LayerId(8), "a".to_string()),
        Layer::raster(LayerId(9), "b".to_string()),
    ];
    let meta = save_layers(&layers, &StyleMaps::new(), &smart);
    let loaded = load_layers(&meta, 1);
    // New identities, counted from the first one.
    assert_eq!(loaded.id_map[&8], LayerId(1));
    assert_eq!(loaded.id_map[&9], LayerId(2));
    assert_eq!(loaded.stack.next_id, 3);
    assert!(!loaded.smart.contains_key(&1));
    assert_eq!(loaded.smart[&2], smart[&9]);
    assert_eq!(loaded.stack.layers[1].name, "b");
}

#[test]
fn pixels_are_staged_with_their_layers() {
    let layers = vec![
        Layer::raster(LayerId(1), "a".to_string()),
        Layer::raster(LayerId(2), "b".to_string()),
    ];
    let staged = stage_pixels(&layers, vec![vec![1, 2], vec![3]]);
    assert_eq!(staged, vec![(LayerId(1), vec![1, 2]), (LayerId(2), vec![3])]);
}
