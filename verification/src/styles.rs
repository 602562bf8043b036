//! Layer styles: the effects attached to layers, as the compositor uses them, and
//! the form in which they are saved.

use crate::geometry::ONE;
use crate::layer::LayerId;
use crate::scalar::Scalar;
use std::collections::HashMap;
use vstd::prelude::*;

verus! {

broadcast use vstd::std_specs::hash::group_hash_axioms;

/// A straight RGBA colour.
pub type Color = [Scalar; 4];

/// A stroke or a glow: a colour and a size in pixels.
pub type Glow = (Color, Scalar);

/// A colour, an offset and a blur, both in pixels.
pub type Shadow = (Color, [Scalar; 2], Scalar);

/// Two colours, an angle in degrees and an opacity.
pub type GradientOverlay = (Color, Color, Scalar, Scalar);

/// Highlight, shadow, size and softening in pixels, angle and altitude in degrees.
pub type Bevel = (Color, Color, Scalar, Scalar, Scalar, Scalar);

/// The styles of one layer.
#[derive(Clone, Copy, PartialEq, Eq, Debug)]
pub struct RuntimeLayerStyles {
    pub stroke: Option<Glow>,
    pub drop_shadow: Option<Shadow>,
    pub color_overlay: Option<Color>,
    pub inner_shadow: Option<Shadow>,
    pub outer_glow: Option<Glow>,
    pub inner_glow: Option<Glow>,
    pub grad_overlay: Option<GradientOverlay>,
    pub bevel: Option<Bevel>,
}

#[derive(Clone, Copy, PartialEq, Eq, Debug)]
pub struct StrokeStyle {
    pub color: Color,
    pub width_px: Scalar,
}

#[derive(Clone, Copy, PartialEq, Eq, Debug)]
pub struct ShadowStyle {
    pub color: Color,
    pub offset_px: [Scalar; 2],
    pub blur_px: Scalar,
}

#[derive(Clone, Copy, PartialEq, Eq, Debug)]
pub struct ColorOverlayStyle {
    pub color: Color,
}

#[derive(Clone, Copy, PartialEq, Eq, Debug)]
pub struct GlowStyle {
    pub color: Color,
    pub size_px: Scalar,
}

#[derive(Clone, Copy, PartialEq, Eq, Debug)]
pub struct GradientOverlayStyle {
    pub color0: Color,
    pub color1: Color,
    pub angle_deg: Scalar,
    pub opacity: Scalar,
}

#[derive(Clone, Copy, PartialEq, Eq, Debug)]
pub struct BevelStyle {
    pub highlight: Color,
    pub shadow: Color,
    pub size_px: Scalar,
    pub soften_px: Scalar,
    pub angle_deg: Scalar,
    pub altitude_deg: Scalar,
}

/// The saved styles of one layer.
#[derive(Clone, Copy, PartialEq, Eq, Debug)]
pub struct LayerStyles {
    pub stroke: Option<StrokeStyle>,
    pub drop_shadow: Option<ShadowStyle>,
    pub color_overlay: Option<ColorOverlayStyle>,
    pub inner_shadow: Option<ShadowStyle>,
    pub outer_glow: Option<GlowStyle>,
    pub inner_glow: Option<GlowStyle>,
    pub gradient_overlay: Option<GradientOverlayStyle>,
    pub bevel: Option<BevelStyle>,
}

impl Default for RuntimeLayerStyles {
    fn default() -> (r: RuntimeLayerStyles)
        ensures
            r.none(),
    {
        RuntimeLayerStyles {
            stroke: None,
            drop_shadow: None,
            color_overlay: None,
            inner_shadow: None,
            outer_glow: None,
            inner_glow: None,
            grad_overlay: None,
            bevel: None,
        }
    }
}

impl Default for LayerStyles {
    fn default() -> (r: LayerStyles)
        ensures
            r.returned().none(),
    {
        LayerStyles {
            stroke: None,
            drop_shadow: None,
            color_overlay: None,
            inner_shadow: None,
            outer_glow: None,
            inner_glow: None,
            gradient_overlay: None,
            bevel: None,
        }
    }
}

impl RuntimeLayerStyles {
    /// The layer has no style.
    pub open spec fn none(self) -> bool {
        &&& self.stroke is None
        &&& self.drop_shadow is None
        &&& self.color_overlay is None
        &&& self.inner_shadow is None
        &&& self.outer_glow is None
        &&& self.inner_glow is None
        &&& self.grad_overlay is None
        &&& self.bevel is None
    }

    pub fn is_empty(&self) -> (r: bool)
        ensures
            r == self.none(),
    {
        self.stroke.is_none() && self.drop_shadow.is_none() && self.color_overlay.is_none()
            && self.inner_shadow.is_none() && self.outer_glow.is_none()
            && self.inner_glow.is_none() && self.grad_overlay.is_none() && self.bevel.is_none()
    }
}

impl LayerStyles {
    /// The styles that the saved ones stand for.
    pub open spec fn returned(self) -> RuntimeLayerStyles {
        RuntimeLayerStyles {
            stroke: match self.stroke {
                Some(s) => Some((s.color, s.width_px)),
                None => None,
            },
            drop_shadow: match self.drop_shadow {
                Some(s) => Some((s.color, s.offset_px, s.blur_px)),
                None => None,
            },
            color_overlay: match self.color_overlay {
                Some(s) => Some(s.color),
                None => None,
            },
            inner_shadow: match self.inner_shadow {
                Some(s) => Some((s.color, s.offset_px, s.blur_px)),
                None => None,
            },
            outer_glow: match self.outer_glow {
                Some(s) => Some((s.color, s.size_px)),
                None => None,
            },
            inner_glow: match self.inner_glow {
                Some(s) => Some((s.color, s.size_px)),
                None => None,
            },
            grad_overlay: match self.gradient_overlay {
                Some(s) => Some((s.color0, s.color1, s.angle_deg, s.opacity)),
                None => None,
            },
            bevel: match self.bevel {
                Some(s) => Some(
                    (
                        s.highlight,
                        s.shadow,
                        s.size_px,
                        s.soften_px,
                        s.angle_deg,
                        s.altitude_deg,
                    ),
                ),
                None => None,
            },
        }
    }
}

fn save_shadow(s: Option<Shadow>) -> (r: Option<ShadowStyle>)
    ensures
        match s {
            Some(v) => r == Some(ShadowStyle { color: v.0, offset_px: v.1, blur_px: v.2 }),
            None => r is None,
        },
{
    match s {
        Some((color, offset_px, blur_px)) => Some(ShadowStyle { color, offset_px, blur_px }),
        None => None,
    }
}

fn save_glow(s: Option<Glow>) -> (r: Option<GlowStyle>)
    ensures
        match s {
            Some(v) => r == Some(GlowStyle { color: v.0, size_px: v.1 }),
            None => r is None,
        },
{
    match s {
        Some((color, size_px)) => Some(GlowStyle { color, size_px }),
        None => None,
    }
}

/// A layer's styles as they are saved; nothing is saved of a layer without any.
pub fn runtime_styles_to_meta(rt: &RuntimeLayerStyles) -> (r: Option<LayerStyles>)
    ensures
        match r {
            Some(m) => !rt.none() && m.returned() == *rt,
            None => rt.none(),
        },
{
    if rt.is_empty() {
        return None;
    }
    Some(
        LayerStyles {
            stroke: match rt.stroke {
                Some((color, width_px)) => Some(StrokeStyle { color, width_px }),
                None => None,
            },
            drop_shadow: save_shadow(rt.drop_shadow),
            color_overlay: match rt.color_overlay {
                Some(color) => Some(ColorOverlayStyle { color }),
                None => None,
            },
            inner_shadow: save_shadow(rt.inner_shadow),
            outer_glow: save_glow(rt.outer_glow),
            inner_glow: save_glow(rt.inner_glow),
            gradient_overlay: match rt.grad_overlay {
                Some((color0, color1, angle_deg, opacity)) => Some(
                    GradientOverlayStyle { color0, color1, angle_deg, opacity },
                ),
                None => None,
            },
            bevel: match rt.bevel {
                Some((highlight, shadow, size_px, soften_px, angle_deg, altitude_deg)) => Some(
                    BevelStyle {
                        highlight,
                        shadow,
                        size_px,
                        soften_px,
                        angle_deg,
                        altitude_deg,
                    },
                ),
                None => None,
            },
        },
    )
}

/// The styles that were saved.
pub fn meta_styles_to_runtime(styles: &LayerStyles) -> (r: RuntimeLayerStyles)
    ensures
        r == styles.returned(),
{
    RuntimeLayerStyles {
        stroke: match styles.stroke {
            Some(s) => Some((s.color, s.width_px)),
            None => None,
        },
        drop_shadow: match styles.drop_shadow {
            Some(s) => Some((s.color, s.offset_px, s.blur_px)),
            None => None,
        },
        color_overlay: match styles.color_overlay {
            Some(s) => Some(s.color),
            None => None,
        },
        inner_shadow: match styles.inner_shadow {
            Some(s) => Some((s.color, s.offset_px, s.blur_px)),
            None => None,
        },
        outer_glow: match styles.outer_glow {
            Some(s) => Some((s.color, s.size_px)),
            None => None,
        },
        inner_glow: match styles.inner_glow {
            Some(s) => Some((s.color, s.size_px)),
            None => None,
        },
        grad_overlay: match styles.gradient_overlay {
            Some(s) => Some((s.color0, s.color1, s.angle_deg, s.opacity)),
            None => None,
        },
        bevel: match styles.bevel {
            Some(s) => Some(
                (s.highlight, s.shadow, s.size_px, s.soften_px, s.angle_deg, s.altitude_deg),
            ),
            None => None,
        },
    }
}

/// The styles of all layers, by layer number.
pub struct StyleMaps {
    pub strokes: HashMap<u64, Glow>,
    pub shadows: HashMap<u64, Shadow>,
    pub overlays: HashMap<u64, Color>,
    pub inner_shadows: HashMap<u64, Shadow>,
    pub outer_glows: HashMap<u64, Glow>,
    pub inner_glows: HashMap<u64, Glow>,
    pub grad_overlays: HashMap<u64, GradientOverlay>,
    pub bevels: HashMap<u64, Bevel>,
}

/// The value at a key, if there is one.
pub open spec fn lookup<V>(m: Map<u64, V>, k: u64) -> Option<V> {
    if m.dom().contains(k) {
        Some(m[k])
    } else {
        None
    }
}

/// The map with a value put in, if there is one to put.
pub open spec fn installed<V>(m: Map<u64, V>, k: u64, v: Option<V>) -> Map<u64, V> {
    match v {
        Some(v) => m.insert(k, v),
        None => m,
    }
}

fn look_up<V: Copy>(m: &HashMap<u64, V>, k: u64) -> (r: Option<V>)
    ensures
        r == lookup(m@, k),
{
    match m.get(&k) {
        Some(v) => Some(*v),
        None => None,
    }
}

fn put_in<V>(m: &mut HashMap<u64, V>, k: u64, v: Option<V>)
    ensures
        final(m)@ == installed(old(m)@, k, v),
{
    if let Some(v) = v {
        m.insert(k, v);
    }
}

impl StyleMaps {
    /// The styles of one layer.
    pub open spec fn of(self, id: LayerId) -> RuntimeLayerStyles {
        RuntimeLayerStyles {
            stroke: lookup(self.strokes@, id.0),
            drop_shadow: lookup(self.shadows@, id.0),
            color_overlay: lookup(self.overlays@, id.0),
            inner_shadow: lookup(self.inner_shadows@, id.0),
            outer_glow: lookup(self.outer_glows@, id.0),
            inner_glow: lookup(self.inner_glows@, id.0),
            grad_overlay: lookup(self.grad_overlays@, id.0),
            bevel: lookup(self.bevels@, id.0),
        }
    }

    pub fn new() -> (r: StyleMaps)
        ensures
            forall|id: LayerId| (#[trigger] r.of(id)).none(),
    {
        StyleMaps {
            strokes: HashMap::new(),
            shadows: HashMap::new(),
            overlays: HashMap::new(),
            inner_shadows: HashMap::new(),
            outer_glows: HashMap::new(),
            inner_glows: HashMap::new(),
            grad_overlays: HashMap::new(),
            bevels: HashMap::new(),
        }
    }

    /// The styles of one layer.
    pub fn collect_runtime_styles(&self, id: LayerId) -> (r: RuntimeLayerStyles)
        ensures
            r == self.of(id),
    {
        RuntimeLayerStyles {
            stroke: look_up(&self.strokes, id.0),
            drop_shadow: look_up(&self.shadows, id.0),
            color_overlay: look_up(&self.overlays, id.0),
            inner_shadow: look_up(&self.inner_shadows, id.0),
            outer_glow: look_up(&self.outer_glows, id.0),
            inner_glow: look_up(&self.inner_glows, id.0),
            grad_overlay: look_up(&self.grad_overlays, id.0),
            bevel: look_up(&self.bevels, id.0),
        }
    }

    /// Give a layer the styles that are there. The others stay as they are.
    pub fn install_runtime_styles(&mut self, id: LayerId, rt: &RuntimeLayerStyles)
        ensures
            final(self).strokes@ == installed(old(self).strokes@, id.0, rt.stroke),
            final(self).shadows@ == installed(old(self).shadows@, id.0, rt.drop_shadow),
            final(self).overlays@ == installed(old(self).overlays@, id.0, rt.color_overlay),
            final(self).inner_shadows@ == installed(
                old(self).inner_shadows@,
                id.0,
                rt.inner_shadow,
            ),
            final(self).outer_glows@ == installed(old(self).outer_glows@, id.0, rt.outer_glow),
            final(self).inner_glows@ == installed(old(self).inner_glows@, id.0, rt.inner_glow),
            final(self).grad_overlays@ == installed(
                old(self).grad_overlays@,
                id.0,
                rt.grad_overlay,
            ),
            final(self).bevels@ == installed(old(self).bevels@, id.0, rt.bevel),
            old(self).of(id).none() ==> final(self).of(id) == *rt,
            forall|other: LayerId|
                other != id ==> #[trigger] final(self).of(other) == old(self).of(other),
    {
        put_in(&mut self.strokes, id.0, rt.stroke);
        put_in(&mut self.shadows, id.0, rt.drop_shadow);
        put_in(&mut self.overlays, id.0, rt.color_overlay);
        put_in(&mut self.inner_shadows, id.0, rt.inner_shadow);
        put_in(&mut self.outer_glows, id.0, rt.outer_glow);
        put_in(&mut self.inner_glows, id.0, rt.inner_glow);
        put_in(&mut self.grad_overlays, id.0, rt.grad_overlay);
        put_in(&mut self.bevels, id.0, rt.bevel);
    }

    /// Take the styles off all layers.
    pub fn clear_all_layer_styles(&mut self)
        ensures
            forall|id: LayerId| (#[trigger] final(self).of(id)).none(),
    {
        self.strokes.clear();
        self.shadows.clear();
        self.overlays.clear();
        self.inner_shadows.clear();
        self.outer_glows.clear();
        self.inner_glows.clear();
        self.grad_overlays.clear();
        self.bevels.clear();
    }
}

/// One of the styles.
#[derive(Clone, Copy, PartialEq, Eq, Structural, Debug)]
pub enum StyleKind {
    Stroke,
    DropShadow,
    ColorOverlay,
    GradientOverlay,
    InnerShadow,
    OuterGlow,
    InnerGlow,
    Bevel,
}

/// A colour with the given bit patterns.
pub open spec fn color_is(c: Color, r: u32, g: u32, b: u32, a: u32) -> bool {
    c@ == seq![Scalar { bits: r }, Scalar { bits: g }, Scalar { bits: b }, Scalar { bits: a }]
}

fn color(r: u32, g: u32, b: u32, a: u32) -> (c: Color)
    ensures
        color_is(c, r, g, b, a),
{
    [Scalar { bits: r }, Scalar { bits: g }, Scalar { bits: b }, Scalar { bits: a }]
}

/// Bit patterns of the values that styles start with, named after the values.
pub const S2: u32 = 0x4000_0000;

pub const S4: u32 = 0x4080_0000;

pub const S5: u32 = 0x40a0_0000;

pub const S6: u32 = 0x40c0_0000;

pub const S8: u32 = 0x4100_0000;

pub const S30: u32 = 0x41f0_0000;

pub const S120: u32 = 0x42f0_0000;

pub const S0_10: u32 = 0x3dcc_cccd;

pub const S0_40: u32 = 0x3ecc_cccd;

pub const S0_60: u32 = 0x3f19_999a;

pub const S0_70: u32 = 0x3f33_3333;

pub const S0_75: u32 = 0x3f40_0000;

pub const S0_80: u32 = 0x3f4c_cccd;

pub const S0_85: u32 = 0x3f59_999a;

pub const S0_95: u32 = 0x3f73_3333;

/// The style of a kind has the values it starts with.
pub open spec fn starts(rt: RuntimeLayerStyles, kind: StyleKind) -> bool {
    match kind {
        StyleKind::Stroke => rt.stroke matches Some(s) && color_is(s.0, 0, 0, 0, ONE) && s.1.bits
            == S4,
        StyleKind::DropShadow => rt.drop_shadow matches Some(s) && color_is(s.0, 0, 0, 0, S0_70)
            && s.1@ == seq![Scalar { bits: S6 }, Scalar { bits: S6 }] && s.2.bits == S6,
        StyleKind::ColorOverlay => rt.color_overlay matches Some(c) && color_is(
            c,
            S0_80,
            S0_10,
            S0_10,
            ONE,
        ),
        StyleKind::GradientOverlay => rt.grad_overlay matches Some(g) && color_is(
            g.0,
            0,
            0,
            0,
            ONE,
        ) && color_is(g.1, ONE, ONE, ONE, ONE) && g.2.bits == 0 && g.3.bits == ONE,
        StyleKind::InnerShadow => rt.inner_shadow matches Some(s) && color_is(
            s.0,
            0,
            0,
            0,
            S0_70,
        ) && s.1@ == seq![Scalar { bits: S4 }, Scalar { bits: S4 }] && s.2.bits == S5,
        StyleKind::OuterGlow => rt.outer_glow matches Some(s) && color_is(
            s.0,
            ONE,
            S0_85,
            S0_40,
            S0_75,
        ) && s.1.bits == S8,
        StyleKind::InnerGlow => rt.inner_glow matches Some(s) && color_is(
            s.0,
            ONE,
            S0_95,
            S0_60,
            S0_75,
        ) && s.1.bits == S8,
        StyleKind::Bevel => rt.bevel matches Some(b) && color_is(b.0, ONE, ONE, ONE, S0_75)
            && color_is(b.1, 0, 0, 0, S0_75) && b.2.bits == S5 && b.3.bits == S2 && b.4.bits
            == S120 && b.5.bits == S30,
    }
}

/// The styles without the one of a kind.
pub open spec fn lacking(rt: RuntimeLayerStyles, kind: StyleKind) -> RuntimeLayerStyles {
    match kind {
        StyleKind::Stroke => RuntimeLayerStyles { stroke: None, ..rt },
        StyleKind::DropShadow => RuntimeLayerStyles { drop_shadow: None, ..rt },
        StyleKind::ColorOverlay => RuntimeLayerStyles { color_overlay: None, ..rt },
        StyleKind::GradientOverlay => RuntimeLayerStyles { grad_overlay: None, ..rt },
        StyleKind::InnerShadow => RuntimeLayerStyles { inner_shadow: None, ..rt },
        StyleKind::OuterGlow => RuntimeLayerStyles { outer_glow: None, ..rt },
        StyleKind::InnerGlow => RuntimeLayerStyles { inner_glow: None, ..rt },
        StyleKind::Bevel => RuntimeLayerStyles { bevel: None, ..rt },
    }
}

fn switch<V>(m: &mut HashMap<u64, V>, k: u64, v: Option<V>)
    ensures
        final(m)@ == (match v {
            Some(v) => old(m)@.insert(k, v),
            None => old(m)@.remove(k),
        }),
{
    match v {
        Some(v) => {
            m.insert(k, v);
        },
        None => {
            m.remove(&k);
        },
    }
}

impl StyleMaps {
    /// Turn a layer's style on, with the values it starts with, or off.
    pub fn enable_style(&mut self, id: LayerId, kind: StyleKind, on: bool)
        ensures
            on ==> starts(final(self).of(id), kind),
            lacking(final(self).of(id), kind) == lacking(old(self).of(id), kind),
            !on ==> final(self).of(id) == lacking(old(self).of(id), kind),
            forall|other: LayerId|
                other != id ==> #[trigger] final(self).of(other) == old(self).of(other),
    {
        let k: u64 = id.0;
        let px = |bits: u32| -> (s: Scalar)
            ensures
                s.bits == bits,
            { Scalar { bits } };
        match kind {
            StyleKind::Stroke => {
                let v: Glow = (color(0, 0, 0, ONE), px(S4));
                switch(&mut self.strokes, k, if on { Some(v) } else { None });
            },
            StyleKind::DropShadow => {
                let v: Shadow = (color(0, 0, 0, S0_70), [px(S6), px(S6)], px(S6));
                switch(&mut self.shadows, k, if on { Some(v) } else { None });
            },
            StyleKind::ColorOverlay => {
                let v: Color = color(S0_80, S0_10, S0_10, ONE);
                switch(&mut self.overlays, k, if on { Some(v) } else { None });
            },
            StyleKind::GradientOverlay => {
                let v: GradientOverlay = (
                    color(0, 0, 0, ONE),
                    color(ONE, ONE, ONE, ONE),
                    px(0),
                    px(ONE),
                );
                switch(&mut self.grad_overlays, k, if on { Some(v) } else { None });
            },
            StyleKind::InnerShadow => {
                let v: Shadow = (color(0, 0, 0, S0_70), [px(S4), px(S4)], px(S5));
                switch(&mut self.inner_shadows, k, if on { Some(v) } else { None });
            },
            StyleKind::OuterGlow => {
                let v: Glow = (color(ONE, S0_85, S0_40, S0_75), px(S8));
                switch(&mut self.outer_glows, k, if on { Some(v) } else { None });
            },
            StyleKind::InnerGlow => {
                let v: Glow = (color(ONE, S0_95, S0_60, S0_75), px(S8));
                switch(&mut self.inner_glows, k, if on { Some(v) } else { None });
            },
            StyleKind::Bevel => {
                let v: Bevel = (
                    color(ONE, ONE, ONE, S0_75),
                    color(0, 0, 0, S0_75),
                    px(S5),
                    px(S2),
                    px(S120),
                    px(S30),
                );
                switch(&mut self.bevels, k, if on { Some(v) } else { None });
            },
        }
    }
}

/// Styles that were loaded are saved as they were saved before.
pub proof fn law_loaded_styles_are_saved_alike(m: LayerStyles, again: LayerStyles)
    requires
        again.returned() == m.returned(),
    ensures
        again == m,
{
}

} // verus!
