use pigment::layer::LayerId;
use pigment::scalar::Scalar;
use pigment::styles::{
    meta_styles_to_runtime, runtime_styles_to_meta, BevelStyle, ColorOverlayStyle, GlowStyle,
    GradientOverlayStyle, LayerStyles, RuntimeLayerStyles, ShadowStyle, StrokeStyle, StyleKind,
    StyleMaps,
};
use serde_json::Value;

fn s(x: f32) -> Scalar {
    Scalar::from_bits(x.to_bits())
}

fn f(x: Scalar) -> f32 {
    f32::from_bits(x.bits)
}

fn c(v: [f32; 4]) -> [Scalar; 4] {
    v.map(s)
}

fn p(v: [f32; 2]) -> [Scalar; 2] {
    v.map(s)
}

// The saved styles as JSON and back.

fn num(x: Scalar) -> Value {
    Value::from(f(x) as f64)
}

fn nums(x: &[Scalar]) -> Value {
    Value::from(x.iter().map(|v| num(*v)).collect::<Vec<Value>>())
}

fn object(fields: Vec<(&str, Value)>) -> Value {
    let mut m = serde_json::Map::new();
    for (k, v) in fields {
        m.insert(k.to_string(), v);
    }
    Value::from(m)
}

fn as_num(v: &Value) -> Scalar {
    s(v.as_f64().unwrap() as f32)
}

fn as_nums<const N: usize>(v: &Value) -> [Scalar; N] {
    let a = v.as_array().unwrap();
    assert_eq!(a.len(), N);
    std::array::from_fn(|i| as_num(&a[i]))
}

fn to_json(st: &LayerStyles) -> Value {
    let mut fields = Vec::new();
    if let Some(x) = st.stroke {
        fields.push(("stroke", object(vec![("color", nums(&x.color)), ("width_px", num(x.width_px))])));
    }
    let shadow = |x: ShadowStyle| {
        object(vec![
            ("color", nums(&x.color)),
            ("offset_px", nums(&x.offset_px)),
            ("blur_px", num(x.blur_px)),
        ])
    };
    let glow = |x: GlowStyle| object(vec![("color", nums(&x.color)), ("size_px", num(x.size_px))]);
    if let Some(x) = st.drop_shadow {
        fields.push(("drop_shadow", shadow(x)));
    }
    if let Some(x) = st.color_overlay {
        fields.push(("color_overlay", object(vec![("color", nums(&x.color))])));
    }
    if let Some(x) = st.inner_shadow {
        fields.push(("inner_shadow", shadow(x)));
    }
    if let Some(x) = st.outer_glow {
        fields.push(("outer_glow", glow(x)));
    }
    if let Some(x) = st.inner_glow {
        fields.push(("inner_glow", glow(x)));
    }
    if let Some(x) = st.gradient_overlay {
        fields.push((
            "gradient_overlay",
            object(vec![
                ("color0", nums(&x.color0)),
                ("color1", nums(&x.color1)),
                ("angle_deg", num(x.angle_deg)),
                ("opacity", num(x.opacity)),
            ]),
        ));
    }
    if let Some(x) = st.bevel {
        fields.push((
            "bevel",
            object(vec![
                ("highlight", nums(&x.highlight)),
                ("shadow", nums(&x.shadow)),
                ("size_px", num(x.size_px)),
                ("soften_px", num(x.soften_px)),
                ("angle_deg", num(x.angle_deg)),
                ("altitude_deg", num(x.altitude_deg)),
            ]),
        ));
    }
    object(fields)
}

fn from_json(v: &Value) -> LayerStyles {
    let shadow = |x: &Value| ShadowStyle {
        color: as_nums(&x["color"]),
        offset_px: as_nums(&x["offset_px"]),
        blur_px: as_num(&x["blur_px"]),
    };
    let glow = |x: &Value| GlowStyle { color: as_nums(&x["color"]), size_px: as_num(&x["size_px"]) };
    LayerStyles {
        stroke: v.get("stroke").map(|x| StrokeStyle {
            color: as_nums(&x["color"]),
            width_px: as_num(&x["width_px"]),
        }),
        drop_shadow: v.get("drop_shadow").map(shadow),
        color_overlay: v
            .get("color_overlay")
            .map(|x| ColorOverlayStyle { color: as_nums(&x["color"]) }),
        inner_shadow: v.get("inner_shadow").map(shadow),
        outer_glow: v.get("outer_glow").map(glow),
        inner_glow: v.get("inner_glow").map(glow),
        gradient_overlay: v.get("gradient_overlay").map(|x| GradientOverlayStyle {
            color0: as_nums(&x["color0"]),
            color1: as_nums(&x["color1"]),
            angle_deg: as_num(&x["angle_deg"]),
            opacity: as_num(&x["opacity"]),
        }),
        bevel: v.get("bevel").map(|x| BevelStyle {
            highlight: as_nums(&x["highlight"]),
            shadow: as_nums(&x["shadow"]),
            size_px: as_num(&x["size_px"]),
            soften_px: as_num(&x["soften_px"]),
            angle_deg: as_num(&x["angle_deg"]),
            altitude_deg: as_num(&x["altitude_deg"]),
        }),
    }
}

fn all_eight() -> RuntimeLayerStyles {
    RuntimeLayerStyles {
        stroke: Some((c([0.1, 0.2, 0.3, 1.0]), s(4.5))),
        drop_shadow: Some((c([0.0, 0.0, 0.0, 0.75]), p([5.0, -3.0]), s(8.0))),
        color_overlay: Some(c([0.8, 0.1, 0.1, 0.6])),
        inner_shadow: Some((c([0.05, 0.05, 0.05, 0.5]), p([-2.0, 2.0]), s(3.0))),
        outer_glow: Some((c([1.0, 0.9, 0.2, 0.8]), s(12.0))),
        inner_glow: Some((c([0.2, 0.9, 1.0, 0.7]), s(6.0))),
        grad_overlay: Some((c([0.0, 0.0, 0.0, 1.0]), c([1.0, 1.0, 1.0, 1.0]), s(45.0), s(0.9))),
        bevel: Some((
            c([1.0, 1.0, 1.0, 0.75]),
            c([0.0, 0.0, 0.0, 0.75]),
            s(5.0),
            s(2.0),
            s(120.0),
            s(30.0),
        )),
    }
}

// All eight styles survive being saved and loaded, with every parameter.
#[test]
fn all_eight_styles_round_trip_through_meta() {
    let rt = all_eight();
    let meta = runtime_styles_to_meta(&rt).expect("non-empty styles produce Some");
    let json = serde_json::to_string(&to_json(&meta)).expect("serialize LayerStyles");
    let value: Value = serde_json::from_str(&json).expect("deserialize LayerStyles");
    let back_meta = from_json(&value);
    let back = meta_styles_to_runtime(&back_meta);
    assert_eq!(rt, back, "all 8 styles must round-trip losslessly");
}

// A layer with no styles is saved without any.
#[test]
fn empty_styles_map_to_none() {
    let rt = RuntimeLayerStyles::default();
    assert!(runtime_styles_to_meta(&rt).is_none());
}

// Exactly the styles that are present are installed.
#[test]
fn install_writes_present_styles_only() {
    let styles = LayerStyles {
        stroke: Some(StrokeStyle { color: c([0.4, 0.5, 0.6, 1.0]), width_px: s(7.0) }),
        bevel: Some(BevelStyle {
            highlight: c([1.0, 1.0, 1.0, 0.5]),
            shadow: c([0.0, 0.0, 0.0, 0.5]),
            size_px: s(9.0),
            soften_px: s(1.0),
            angle_deg: s(90.0),
            altitude_deg: s(45.0),
        }),
        ..Default::default()
    };
    let rt = meta_styles_to_runtime(&styles);
    assert_eq!(rt.stroke, Some((c([0.4, 0.5, 0.6, 1.0]), s(7.0))));
    assert_eq!(
        rt.bevel,
        Some((c([1.0, 1.0, 1.0, 0.5]), c([0.0, 0.0, 0.0, 0.5]), s(9.0), s(1.0), s(90.0), s(45.0)))
    );
    assert!(rt.drop_shadow.is_none());
    assert!(rt.color_overlay.is_none());
    assert!(rt.grad_overlay.is_none());
}

#[test]
fn installed_styles_are_collected_again() {
    let mut maps = StyleMaps::new();
    let (a, b) = (LayerId(4), LayerId(5));
    maps.install_runtime_styles(a, &all_eight());
    assert_eq!(maps.collect_runtime_styles(a), all_eight());
    assert!(maps.collect_runtime_styles(b).is_empty());
    // Installing fewer styles leaves those that are not among them.
    let only_stroke = RuntimeLayerStyles {
        stroke: Some((c([0.0, 0.0, 0.0, 1.0]), s(1.0))),
        ..Default::default()
    };
    maps.install_runtime_styles(b, &only_stroke);
    assert_eq!(maps.collect_runtime_styles(b), only_stroke);
    maps.clear_all_layer_styles();
    assert!(maps.collect_runtime_styles(a).is_empty());
    assert!(maps.collect_runtime_styles(b).is_empty());
}

#[test]
fn enabled_styles_start_with_their_settings() {
    let mut maps = StyleMaps::new();
    let id = LayerId(1);
    maps.enable_style(id, StyleKind::Stroke, true);
    assert_eq!(
        maps.collect_runtime_styles(id).stroke,
        Some((c([0.0, 0.0, 0.0, 1.0]), s(4.0)))
    );
    maps.enable_style(id, StyleKind::Bevel, true);
    assert_eq!(
        maps.collect_runtime_styles(id).bevel,
        Some((
            c([1.0, 1.0, 1.0, 0.75]),
            c([0.0, 0.0, 0.0, 0.75]),
            s(5.0),
            s(2.0),
            s(120.0),
            s(30.0)
        ))
    );
    maps.enable_style(id, StyleKind::Stroke, false);
    assert!(maps.collect_runtime_styles(id).stroke.is_none());
    assert!(maps.collect_runtime_styles(id).bevel.is_some());
}
