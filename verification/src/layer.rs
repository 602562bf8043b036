//! The document model: layers with their attributes, and the stack they form.

use crate::geometry::{Size, ONE};
use crate::scalar::Scalar;
use vstd::prelude::*;

verus! {

/// A layer's identity, which it keeps however the stack is rearranged.
#[derive(Clone, Copy, PartialEq, Eq, Structural, Debug, Hash)]
pub struct LayerId(pub u64);

/// A blend mode, known by the number that the compositor gives it.
#[derive(Clone, Copy, PartialEq, Eq, Structural, Debug)]
pub struct BlendMode {
    pub shader: u32,
}

impl BlendMode {
    pub fn shader_id(&self) -> (r: u32)
        ensures
            r == self.shader,
    {
        self.shader
    }

    pub fn from_shader_id(id: u32) -> (r: BlendMode)
        ensures
            r == (BlendMode { shader: id }),
    {
        BlendMode { shader: id }
    }
}

/// The control points of the tone curves, composite and per channel.
#[derive(PartialEq, Eq, Debug)]
pub struct CurvePoints {
    pub rgb: Vec<(Scalar, Scalar)>,
    pub r: Vec<(Scalar, Scalar)>,
    pub g: Vec<(Scalar, Scalar)>,
    pub b: Vec<(Scalar, Scalar)>,
}

/// A non-destructive colour adjustment with its parameters.
#[derive(PartialEq, Eq, Debug)]
pub enum Adjustment {
    BrightnessContrast { brightness: Scalar, contrast: Scalar },
    Levels { in_black: Scalar, in_white: Scalar, gamma: Scalar },
    HueSaturation { hue: Scalar, saturation: Scalar, lightness: Scalar },
    Exposure { stops: Scalar },
    Threshold { level: Scalar },
    Curves(CurvePoints),
    Vibrance { amount: Scalar },
    PhotoFilter { color: [Scalar; 3], density: Scalar },
    Posterize { levels: u32 },
    GradientMap { low: [Scalar; 3], high: [Scalar; 3] },
    ColorBalance {
        shadows: [Scalar; 3],
        midtones: [Scalar; 3],
        highlights: [Scalar; 3],
        preserve_luminosity: bool,
    },
    ChannelMixer { r: [Scalar; 4], g: [Scalar; 4], b: [Scalar; 4], monochrome: bool },
    Invert,
    BlackWhite,
}

/// What a text layer shows.
#[derive(PartialEq, Eq, Debug)]
pub struct TextDef {
    pub text: String,
    /// `None` is the renderer's default face.
    pub family: Option<String>,
    pub font_px: Scalar,
    /// 0 is left, 1 centre, 2 right.
    pub align: u8,
    pub color: [Scalar; 4],
}

/// What a vector layer shows: kind 1 is an ellipse, any other a rectangle.
#[derive(Clone, Copy, PartialEq, Eq, Debug)]
pub struct VectorDef {
    pub kind: u8,
    pub rect: [Scalar; 4],
    pub color: [Scalar; 4],
}

#[derive(PartialEq, Eq, Debug)]
pub enum LayerKind {
    Raster,
    Adjustment(Adjustment),
    Text(TextDef),
    Vector(VectorDef),
}

#[derive(PartialEq, Eq, Debug)]
pub struct Layer {
    pub id: LayerId,
    pub name: String,
    pub visible: bool,
    pub opacity: Scalar,
    pub blend: BlendMode,
    pub kind: LayerKind,
}

/// The layers from the bottom up, and the next identity to give out.
pub struct LayerStack {
    pub layers: Vec<Layer>,
    pub next_id: u64,
}

pub struct Document {
    pub size: Size,
    pub layers: LayerStack,
    pub active_layer: Option<LayerId>,
}

impl CurvePoints {
    /// Both hold the same points.
    pub open spec fn same_as(self, other: CurvePoints) -> bool {
        &&& self.rgb@ == other.rgb@
        &&& self.r@ == other.r@
        &&& self.g@ == other.g@
        &&& self.b@ == other.b@
    }

    pub fn copied(&self) -> (r: CurvePoints)
        ensures
            r.same_as(*self),
    {
        CurvePoints {
            rgb: copy_points(&self.rgb),
            r: copy_points(&self.r),
            g: copy_points(&self.g),
            b: copy_points(&self.b),
        }
    }
}

fn copy_points(v: &Vec<(Scalar, Scalar)>) -> (r: Vec<(Scalar, Scalar)>)
    ensures
        r@ == v@,
{
    let mut out: Vec<(Scalar, Scalar)> = Vec::new();
    let mut i: usize = 0;
    while i < v.len()
        invariant
            i <= v@.len(),
            out@ == v@.take(i as int),
        decreases v@.len() - i,
    {
        out.push(v[i]);
        assert(v@.take(i + 1) =~= v@.take(i as int).push(v@[i as int]));
        i = i + 1;
    }
    assert(v@.take(i as int) =~= v@);
    out
}

impl Adjustment {
    /// Both are the same adjustment with the same parameters.
    pub open spec fn same_as(self, other: Adjustment) -> bool {
        match (self, other) {
            (Adjustment::Curves(a), Adjustment::Curves(b)) => a.same_as(b),
            _ => self == other,
        }
    }

    pub fn copied(&self) -> (r: Adjustment)
        ensures
            r.same_as(*self),
    {
        match self {
            Adjustment::BrightnessContrast { brightness, contrast } => {
                Adjustment::BrightnessContrast { brightness: *brightness, contrast: *contrast }
            },
            Adjustment::Levels { in_black, in_white, gamma } => Adjustment::Levels {
                in_black: *in_black,
                in_white: *in_white,
                gamma: *gamma,
            },
            Adjustment::HueSaturation { hue, saturation, lightness } => {
                Adjustment::HueSaturation {
                    hue: *hue,
                    saturation: *saturation,
                    lightness: *lightness,
                }
            },
            Adjustment::Exposure { stops } => Adjustment::Exposure { stops: *stops },
            Adjustment::Threshold { level } => Adjustment::Threshold { level: *level },
            Adjustment::Curves(cp) => Adjustment::Curves(cp.copied()),
            Adjustment::Vibrance { amount } => Adjustment::Vibrance { amount: *amount },
            Adjustment::PhotoFilter { color, density } => Adjustment::PhotoFilter {
                color: *color,
                density: *density,
            },
            Adjustment::Posterize { levels } => Adjustment::Posterize { levels: *levels },
            Adjustment::GradientMap { low, high } => Adjustment::GradientMap {
                low: *low,
                high: *high,
            },
            Adjustment::ColorBalance { shadows, midtones, highlights, preserve_luminosity } => {
                Adjustment::ColorBalance {
                    shadows: *shadows,
                    midtones: *midtones,
                    highlights: *highlights,
                    preserve_luminosity: *preserve_luminosity,
                }
            },
            Adjustment::ChannelMixer { r, g, b, monochrome } => Adjustment::ChannelMixer {
                r: *r,
                g: *g,
                b: *b,
                monochrome: *monochrome,
            },
            Adjustment::Invert => Adjustment::Invert,
            Adjustment::BlackWhite => Adjustment::BlackWhite,
        }
    }
}

impl Layer {
    /// A new layer: visible, opaque and blended normally.
    pub open spec fn fresh(self, id: LayerId, name: Seq<char>, kind: LayerKind) -> bool {
        &&& self.id == id
        &&& self.name@ == name
        &&& self.visible
        &&& self.opacity.bits == ONE
        &&& self.blend.shader == 0
        &&& self.kind == kind
    }

    pub fn new(id: LayerId, name: String, kind: LayerKind) -> (r: Layer)
        ensures
            r.fresh(id, name@, kind),
    {
        Layer {
            id,
            name,
            visible: true,
            opacity: Scalar { bits: ONE },
            blend: BlendMode { shader: 0 },
            kind,
        }
    }

    pub fn raster(id: LayerId, name: String) -> (r: Layer)
        ensures
            r.fresh(id, name@, LayerKind::Raster),
    {
        Layer::new(id, name, LayerKind::Raster)
    }

    pub fn adjustment(id: LayerId, name: String, adj: Adjustment) -> (r: Layer)
        ensures
            r.fresh(id, name@, LayerKind::Adjustment(adj)),
    {
        Layer::new(id, name, LayerKind::Adjustment(adj))
    }
}

/// The identities of the layers, from the bottom up.
pub open spec fn ids(layers: Seq<Layer>) -> Seq<LayerId> {
    layers.map_values(|l: Layer| l.id)
}

/// The place of the first layer with identity `id`, or the number of layers.
pub open spec fn place(layers: Seq<Layer>, id: LayerId) -> int
    decreases layers.len(),
{
    if layers.len() == 0 || layers[0].id == id {
        0
    } else {
        1 + place(layers.skip(1), id)
    }
}

pub proof fn lemma_place(layers: Seq<Layer>, id: LayerId)
    ensures
        0 <= place(layers, id) <= layers.len(),
        place(layers, id) < layers.len() ==> layers[place(layers, id)].id == id,
        forall|i: int| 0 <= i < place(layers, id) ==> (#[trigger] layers[i]).id != id,
    decreases layers.len(),
{
    if layers.len() > 0 && layers[0].id != id {
        let rest = layers.skip(1);
        lemma_place(rest, id);
        assert forall|i: int| 0 <= i < place(layers, id) implies (#[trigger] layers[i]).id
            != id by {
            if i > 0 {
                assert(layers[i] == rest[i - 1]);
            }
        }
    }
}

/// Where the layer with identity `id` stands.
pub fn find(layers: &Vec<Layer>, id: LayerId) -> (r: Option<usize>)
    ensures
        match r {
            Some(i) => i == place(layers@, id) && i < layers@.len(),
            None => place(layers@, id) == layers@.len(),
        },
{
    let mut i: usize = 0;
    proof {
        lemma_place(layers@, id);
    }
    while i < layers.len()
        invariant
            i <= place(layers@, id) <= layers@.len(),
            place(layers@, id) < layers@.len() ==> layers@[place(layers@, id)].id == id,
            forall|j: int| 0 <= j < place(layers@, id) ==> (#[trigger] layers@[j]).id != id,
        decreases layers@.len() - i,
    {
        if layers[i].id == id {
            return Some(i);
        }
        i = i + 1;
    }
    None
}

impl LayerStack {
    /// No two layers share an identity, and no identity to come is taken.
    pub open spec fn wf(self) -> bool {
        &&& forall|i: int|
            0 <= i < self.layers@.len() ==> (#[trigger] self.layers@[i]).id.0 < self.next_id
        &&& forall|i: int, j: int|
            0 <= i < j < self.layers@.len() ==> (#[trigger] self.layers@[i]).id != (
            #[trigger] self.layers@[j]).id
    }

    /// An identity that no layer has had.
    pub fn alloc_id(&mut self) -> (id: LayerId)
        requires
            old(self).wf(),
            old(self).next_id < u64::MAX,
        ensures
            final(self).wf(),
            id == LayerId(old(self).next_id),
            final(self).next_id == old(self).next_id + 1,
            final(self).layers == old(self).layers,
            forall|i: int|
                0 <= i < old(self).layers@.len() ==> (#[trigger] old(self).layers@[i]).id != id,
    {
        let id: LayerId = LayerId(self.next_id);
        self.next_id = self.next_id + 1;
        id
    }

    /// Put a new layer on top.
    pub fn add_layer(&mut self, name: String, kind: LayerKind) -> (id: LayerId)
        requires
            old(self).wf(),
            old(self).next_id < u64::MAX,
        ensures
            final(self).wf(),
            id == LayerId(old(self).next_id),
            final(self).next_id == old(self).next_id + 1,
            final(self).layers@.len() == old(self).layers@.len() + 1,
            final(self).layers@.drop_last() == old(self).layers@,
            final(self).layers@.last().fresh(id, name@, kind),
    {
        let id: LayerId = self.alloc_id();
        self.layers.push(Layer::new(id, name, kind));
        assert(self.layers@.drop_last() =~= old(self).layers@);
        id
    }

    /// Put a new raster layer on top.
    pub fn add_raster(&mut self, name: String) -> (id: LayerId)
        requires
            old(self).wf(),
            old(self).next_id < u64::MAX,
        ensures
            final(self).wf(),
            id == LayerId(old(self).next_id),
            final(self).next_id == old(self).next_id + 1,
            final(self).layers@.len() == old(self).layers@.len() + 1,
            final(self).layers@.drop_last() == old(self).layers@,
            final(self).layers@.last().fresh(id, name@, LayerKind::Raster),
    {
        self.add_layer(name, LayerKind::Raster)
    }

    /// Where the layer with identity `id` stands.
    pub fn position(&self, id: LayerId) -> (r: Option<usize>)
        ensures
            match r {
                Some(i) => i == place(self.layers@, id) && i < self.layers@.len(),
                None => place(self.layers@, id) == self.layers@.len(),
            },
    {
        find(&self.layers, id)
    }

    /// Move the layer one place towards the top. Nothing changes at the top, or
    /// if there is no such layer.
    pub fn move_up(&mut self, id: LayerId)
        requires
            old(self).wf(),
        ensures
            final(self).wf(),
            final(self).next_id == old(self).next_id,
            final(self).layers@ == raised(old(self).layers@, place(old(self).layers@, id)),
    {
        if let Some(i) = self.position(id) {
            let n: usize = self.layers.len();
            if i + 1 < n {
                self.exchange(i);
            }
        }
    }

    /// Move the layer one place towards the bottom. Nothing changes at the
    /// bottom, or if there is no such layer.
    pub fn move_down(&mut self, id: LayerId)
        requires
            old(self).wf(),
        ensures
            final(self).wf(),
            final(self).next_id == old(self).next_id,
            final(self).layers@ == (if 0 < place(old(self).layers@, id)
                < old(self).layers@.len() {
                raised(old(self).layers@, place(old(self).layers@, id) - 1)
            } else {
                old(self).layers@
            }),
    {
        if let Some(i) = self.position(id) {
            if i > 0 {
                self.exchange(i - 1);
            }
        }
    }

    fn exchange(&mut self, i: usize)
        requires
            old(self).wf(),
            i + 1 < old(self).layers.len(),
        ensures
            final(self).wf(),
            final(self).next_id == old(self).next_id,
            final(self).layers@ == raised(old(self).layers@, i as int),
    {
        let lower: Layer = self.layers.remove(i);
        self.layers.insert(i + 1, lower);
        assert(self.layers@ =~= raised(old(self).layers@, i as int));
    }

    /// Remove the layer with identity `id`, if there is one.
    pub fn remove(&mut self, id: LayerId)
        requires
            old(self).wf(),
        ensures
            final(self).wf(),
            final(self).next_id == old(self).next_id,
            final(self).layers@ == without(old(self).layers@, id),
    {
        let found: Option<usize> = self.position(id);
        if let Some(i) = found {
            self.layers.remove(i);
        }
    }
}

/// The layers with the one at `i` and the one above it exchanged, if both exist.
pub open spec fn raised(layers: Seq<Layer>, i: int) -> Seq<Layer> {
    if 0 <= i && i + 1 < layers.len() {
        layers.update(i, layers[i + 1]).update(i + 1, layers[i])
    } else {
        layers
    }
}

/// The layers without the one with identity `id`.
pub open spec fn without(layers: Seq<Layer>, id: LayerId) -> Seq<Layer> {
    if place(layers, id) < layers.len() {
        layers.remove(place(layers, id))
    } else {
        layers
    }
}

impl Document {
    pub open spec fn wf(self) -> bool {
        self.layers.wf()
    }

    /// A document with one empty layer.
    pub fn new(size: Size) -> (r: Document)
        ensures
            r.wf(),
            r.size == size,
            r.layers.next_id == 2,
            r.layers.layers@.len() == 1,
            r.layers.layers@[0].fresh(LayerId(1), "Background"@, LayerKind::Raster),
            r.active_layer == Some(LayerId(1)),
    {
        let mut layers: LayerStack = LayerStack { layers: Vec::new(), next_id: 1 };
        let id: LayerId = layers.add_raster("Background".to_owned());
        Document { size, layers, active_layer: Some(id) }
    }
}

/// Moving a layer up and then down again gives the stack back.
pub proof fn law_layer_move_down_undoes_move_up(s: LayerStack, id: LayerId)
    requires
        s.wf(),
        place(s.layers@, id) + 1 < s.layers@.len(),
    ensures
        ({
            let i = place(s.layers@, id);
            let up = raised(s.layers@, i);
            &&& place(up, id) == i + 1
            &&& raised(up, place(up, id) - 1) == s.layers@
        }),
{
    let i = place(s.layers@, id);
    lemma_place(s.layers@, id);
    let up = raised(s.layers@, i);
    lemma_place(up, id);
    let j = place(up, id);
    assert(up[i + 1].id == id);
    if j < i + 1 {
        assert(up[j].id == id);
        if j == i {
            assert(s.layers@[i + 1].id != s.layers@[i].id);
        } else {
            assert(s.layers@[j].id != s.layers@[i].id);
        }
    }
    assert(raised(up, i) =~= s.layers@);
}

/// Removing a layer takes that one away and no other.
pub proof fn law_removal_takes_one_layer(s: LayerStack, id: LayerId, other: int)
    requires
        s.wf(),
        0 <= other < s.layers@.len(),
    ensures
        s.layers@[other].id != id ==> without(s.layers@, id).contains(s.layers@[other]),
        s.layers@[other].id == id ==> !ids(without(s.layers@, id)).contains(id),
{
    lemma_place(s.layers@, id);
    let i = place(s.layers@, id);
    let rest = without(s.layers@, id);
    if s.layers@[other].id != id {
        if i == s.layers@.len() {
            assert(rest[other] == s.layers@[other]);
        } else if other < i {
            assert(rest[other] == s.layers@[other]);
        } else {
            assert(rest[other - 1] == s.layers@[other]);
        }
    } else {
        assert forall|k: int| 0 <= k < rest.len() implies (#[trigger] ids(rest)[k]) != id by {
            if i < s.layers@.len() {
                if k < i {
                    assert(rest[k] == s.layers@[k]);
                } else {
                    assert(rest[k] == s.layers@[k + 1]);
                }
            }
        }
    }
}

} // verus!
