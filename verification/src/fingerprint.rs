//! Fingerprints: hashes of everything that a picture depends on, by which a frame
//! knows whether anything changed.

use crate::geometry::{Size, ONE};
use crate::layer::{Adjustment, CurvePoints, Layer, LayerId, LayerKind, TextDef, VectorDef};
use crate::scalar::Scalar;
use std::collections::hash_map::DefaultHasher;
use std::collections::{HashMap, HashSet};
use std::hash::Hasher;
use vstd::bytes::*;
use vstd::prelude::*;
use vstd::std_specs::hash::DefaultHasherAdditionalSpecFns;
use vstd::string::*;
use vstd::utf8::*;

verus! {

broadcast use vstd::std_specs::hash::group_hash_axioms;

/// What is hashed, piece by piece.
pub type Trail = Seq<Seq<u8>>;

/// A number as a piece.
pub open spec fn word(x: u64) -> Seq<u8> {
    spec_u64_to_le_bytes(x)
}

/// A truth value as a number.
pub open spec fn flag(b: bool) -> u64 {
    if b {
        1
    } else {
        0
    }
}

/// The pieces of scalars, one after the other.
pub open spec fn scalar_words(s: Seq<Scalar>) -> Trail {
    s.map_values(|v: Scalar| word(v.bits as u64))
}

fn put(h: &mut DefaultHasher, x: u64)
    ensures
        final(h)@ == old(h)@.push(word(x)),
{
    let bytes: Vec<u8> = u64_to_le_bytes(x);
    h.write(bytes.as_slice());
}

fn put_scalars(h: &mut DefaultHasher, s: &[Scalar])
    ensures
        final(h)@ == old(h)@ + scalar_words(s@),
{
    let ghost start = h@;
    let mut i: usize = 0;
    assert(h@ =~= start + scalar_words(s@.take(0)));
    while i < s.len()
        invariant
            i <= s@.len(),
            h@ == start + scalar_words(s@.take(i as int)),
        decreases s@.len() - i,
    {
        put(h, s[i].bits as u64);
        proof {
            assert(start + scalar_words(s@.take(i + 1)) =~= (start + scalar_words(
                s@.take(i as int),
            )).push(word(s@[i as int].bits as u64)));
        }
        i = i + 1;
    }
    assert(s@.take(i as int) =~= s@);
}

/// The pieces of a curve's points: their coordinates, two for each.
pub open spec fn curve_words(pts: Seq<(Scalar, Scalar)>) -> Trail
    decreases pts.len(),
{
    if pts.len() == 0 {
        Seq::empty()
    } else {
        curve_words(pts.drop_last()).push(word(pts.last().0.bits as u64)).push(
            word(pts.last().1.bits as u64),
        )
    }
}

fn put_curve(h: &mut DefaultHasher, pts: &Vec<(Scalar, Scalar)>)
    ensures
        final(h)@ == old(h)@.push(word(pts@.len() as u64)) + curve_words(pts@),
{
    put(h, pts.len() as u64);
    let ghost start = h@;
    let mut i: usize = 0;
    assert(h@ =~= start + curve_words(pts@.take(0)));
    while i < pts.len()
        invariant
            i <= pts@.len(),
            h@ == start + curve_words(pts@.take(i as int)),
        decreases pts@.len() - i,
    {
        let (x, y): (Scalar, Scalar) = pts[i];
        put(h, x.bits as u64);
        put(h, y.bits as u64);
        proof {
            let next = pts@.take(i + 1);
            assert(next.drop_last() =~= pts@.take(i as int));
            assert(next.last() == (x, y));
            assert(start + curve_words(next) =~= (start + curve_words(pts@.take(i as int))).push(
                word(x.bits as u64),
            ).push(word(y.bits as u64)));
        }
        i = i + 1;
    }
    assert(pts@.take(i as int) =~= pts@);
}

/// The pieces of four curves.
pub open spec fn curves_words(cp: CurvePoints) -> Trail {
    seq![word(cp.rgb@.len() as u64)] + curve_words(cp.rgb@) + seq![word(cp.r@.len() as u64)]
        + curve_words(cp.r@) + seq![word(cp.g@.len() as u64)] + curve_words(cp.g@) + seq![
        word(cp.b@.len() as u64),
    ] + curve_words(cp.b@)
}

fn put_curves(h: &mut DefaultHasher, cp: &CurvePoints)
    ensures
        final(h)@ == old(h)@ + curves_words(*cp),
{
    let ghost start = h@;
    put_curve(h, &cp.rgb);
    put_curve(h, &cp.r);
    put_curve(h, &cp.g);
    put_curve(h, &cp.b);
    assert(h@ =~= start + curves_words(*cp));
}

/// An adjustment as the compositor takes it: a number and four parameters.
pub type AdjustCode = (u32, [Scalar; 4]);

/// The pieces of an adjustment. The code does not carry curves, so they have
/// pieces of their own.
pub open spec fn adjustment_words(a: Adjustment, code: AdjustCode) -> Trail {
    seq![word(code.0 as u64)] + scalar_words(code.1@) + (match a {
        Adjustment::Curves(cp) => curves_words(cp),
        _ => Seq::empty(),
    })
}

/// The pieces of a layer: all that its part in the picture depends on.
pub open spec fn layer_words(
    l: Layer,
    code: AdjustCode,
    blend_if: Option<Seq<Scalar>>,
    clipped: bool,
) -> Trail {
    seq![
        word(l.id.0),
        word(flag(l.visible)),
        word(l.blend.shader as u64),
        word(l.opacity.bits as u64),
    ] + (match l.kind {
        LayerKind::Adjustment(a) => adjustment_words(a, code),
        _ => Seq::empty(),
    }) + (match blend_if {
        Some(b) => scalar_words(b),
        None => Seq::empty(),
    }) + seq![word(flag(clipped))]
}

fn put_layer(
    h: &mut DefaultHasher,
    l: &Layer,
    code: &AdjustCode,
    blend_if: Option<&[Scalar; 4]>,
    clipped: bool,
)
    ensures
        final(h)@ == old(h)@ + layer_words(
            *l,
            *code,
            match blend_if {
                Some(b) => Some(b@),
                None => None,
            },
            clipped,
        ),
{
    let ghost start = h@;
    put(h, l.id.0);
    put(h, if l.visible { 1 } else { 0 });
    put(h, l.blend.shader_id() as u64);
    put(h, l.opacity.bits as u64);
    if let LayerKind::Adjustment(a) = &l.kind {
        put(h, code.0 as u64);
        put_scalars(h, code.1.as_slice());
        if let Adjustment::Curves(cp) = a {
            put_curves(h, cp);
        }
    }
    if let Some(b) = blend_if {
        put_scalars(h, b.as_slice());
    }
    put(h, if clipped { 1 } else { 0 });
    assert(h@ =~= start + layer_words(
        *l,
        *code,
        match blend_if {
            Some(b) => Some(b@),
            None => None,
        },
        clipped,
    ));
}

/// The blend-if ranges of a layer, if it has any.
pub open spec fn ranges_of(blend_if: Map<u64, [Scalar; 4]>, id: LayerId) -> Option<Seq<Scalar>> {
    if blend_if.dom().contains(id.0) {
        Some(blend_if[id.0]@)
    } else {
        None
    }
}

/// The pieces of the first `n` layers.
pub open spec fn stack_words(
    layers: Seq<Layer>,
    codes: Seq<AdjustCode>,
    blend_if: Map<u64, [Scalar; 4]>,
    clipped: Set<u64>,
    n: int,
) -> Trail
    decreases n,
{
    if n <= 0 {
        Seq::empty()
    } else {
        let l = layers[n - 1];
        stack_words(layers, codes, blend_if, clipped, n - 1) + layer_words(
            l,
            codes[n - 1],
            ranges_of(blend_if, l.id),
            clipped.contains(l.id.0),
        )
    }
}

/// The fingerprint of the picture: the active layer, and all that the layers look
/// like. An adjustment comes with its code.
pub fn layer_fingerprint(
    active: LayerId,
    layers: &Vec<Layer>,
    codes: &Vec<AdjustCode>,
    blend_if: &HashMap<u64, [Scalar; 4]>,
    clipped: &HashSet<u64>,
) -> (r: u64)
    requires
        codes@.len() == layers@.len(),
    ensures
        r == DefaultHasher::spec_finish(
            seq![word(active.0)] + stack_words(
                layers@,
                codes@,
                blend_if@,
                clipped@,
                layers@.len() as int,
            ),
        ),
{
    let mut h: DefaultHasher = DefaultHasher::new();
    put(&mut h, active.0);
    let ghost start = seq![word(active.0)];
    let mut i: usize = 0;
    assert(h@ =~= start + stack_words(layers@, codes@, blend_if@, clipped@, 0));
    while i < layers.len()
        invariant
            i <= layers@.len() == codes@.len(),
            h@ == start + stack_words(layers@, codes@, blend_if@, clipped@, i as int),
        decreases layers@.len() - i,
    {
        let l: &Layer = &layers[i];
        put_layer(&mut h, l, &codes[i], blend_if.get(&l.id.0), clipped.contains(&l.id.0));
        assert(h@ =~= start + stack_words(layers@, codes@, blend_if@, clipped@, i + 1));
        i = i + 1;
    }
    h.finish()
}

/// The pieces of what a text layer shows on a canvas.
pub open spec fn text_words(t: TextDef, size: Size) -> Trail {
    seq![encode_utf8(t.text@)] + (match t.family {
        Some(f) => seq![word(1), encode_utf8(f@)],
        None => seq![word(0)],
    }) + seq![word(t.font_px.bits as u64), word(t.align as u64)] + scalar_words(t.color@) + seq![
        word(size.width as u64),
        word(size.height as u64),
    ]
}

/// The pieces of what a vector layer shows on a canvas.
pub open spec fn vector_words(v: VectorDef, size: Size) -> Trail {
    seq![word(v.kind as u64)] + scalar_words(v.rect@) + scalar_words(v.color@) + seq![
        word(size.width as u64),
        word(size.height as u64),
    ]
}

/// The fingerprint of what a text layer shows.
pub fn text_fingerprint(t: &TextDef, size: Size) -> (r: u64)
    ensures
        r == DefaultHasher::spec_finish(text_words(*t, size)),
{
    let mut h: DefaultHasher = DefaultHasher::new();
    h.write(t.text.as_str().as_bytes());
    match &t.family {
        Some(f) => {
            put(&mut h, 1);
            h.write(f.as_str().as_bytes());
        },
        None => {
            put(&mut h, 0);
        },
    }
    put(&mut h, t.font_px.bits as u64);
    put(&mut h, t.align as u64);
    put_scalars(&mut h, t.color.as_slice());
    put(&mut h, size.width as u64);
    put(&mut h, size.height as u64);
    assert(h@ =~= text_words(*t, size));
    h.finish()
}

/// The fingerprint of what a vector layer shows.
pub fn vector_fingerprint(v: &VectorDef, size: Size) -> (r: u64)
    ensures
        r == DefaultHasher::spec_finish(vector_words(*v, size)),
{
    let mut h: DefaultHasher = DefaultHasher::new();
    put(&mut h, v.kind as u64);
    put_scalars(&mut h, v.rect.as_slice());
    put_scalars(&mut h, v.color.as_slice());
    put(&mut h, size.width as u64);
    put(&mut h, size.height as u64);
    assert(h@ =~= vector_words(*v, size));
    h.finish()
}

/// A layer as it is handed to the compositor.
#[derive(Clone, Copy, PartialEq, Eq, Debug)]
pub struct LayerDraw {
    pub id: LayerId,
    pub opacity: Scalar,
    pub blend: u32,
    pub visible: bool,
    /// 0 for a layer that adjusts nothing.
    pub adjust_kind: u32,
    pub adjust: [Scalar; 4],
    pub has_blend_if: bool,
    pub blend_if: [Scalar; 4],
    pub clipped: bool,
}

/// The blend-if ranges that let everything through.
pub open spec fn open_ranges() -> Seq<Scalar> {
    seq![
        Scalar { bits: 0 },
        Scalar { bits: ONE },
        Scalar { bits: 0 },
        Scalar { bits: ONE },
    ]
}

/// `d` is how a layer is drawn.
pub open spec fn draws(
    l: Layer,
    code: AdjustCode,
    blend_if: Option<Seq<Scalar>>,
    clipped: bool,
    d: LayerDraw,
) -> bool {
    &&& d.id == l.id
    &&& d.opacity == l.opacity
    &&& d.blend == l.blend.shader
    &&& d.visible == l.visible
    &&& d.adjust_kind == (if l.kind is Adjustment {
        code.0
    } else {
        0
    })
    &&& d.adjust@ == (if l.kind is Adjustment {
        code.1@
    } else {
        Seq::new(4, |i: int| Scalar { bits: 0 })
    })
    &&& d.has_blend_if == (blend_if is Some)
    &&& d.blend_if@ == (match blend_if {
        Some(b) => b,
        None => open_ranges(),
    })
    &&& d.clipped == clipped
}

/// The layers as they are handed to the compositor, from the bottom up.
pub fn layer_order(
    layers: &Vec<Layer>,
    codes: &Vec<AdjustCode>,
    blend_if: &HashMap<u64, [Scalar; 4]>,
    clipped: &HashSet<u64>,
) -> (r: Vec<LayerDraw>)
    requires
        codes@.len() == layers@.len(),
    ensures
        r@.len() == layers@.len(),
        forall|i: int|
            0 <= i < r@.len() ==> draws(
                layers@[i],
                codes@[i],
                ranges_of(blend_if@, layers@[i].id),
                clipped@.contains(layers@[i].id.0),
                #[trigger] r@[i],
            ),
{
    let (zero, one): (Scalar, Scalar) = (Scalar::zero(), Scalar { bits: ONE });
    let mut out: Vec<LayerDraw> = Vec::new();
    let mut i: usize = 0;
    while i < layers.len()
        invariant
            i <= layers@.len() == codes@.len(),
            zero == (Scalar { bits: 0 }),
            one == (Scalar { bits: ONE }),
            out@.len() == i,
            forall|j: int|
                0 <= j < i ==> draws(
                    layers@[j],
                    codes@[j],
                    ranges_of(blend_if@, layers@[j].id),
                    clipped@.contains(layers@[j].id.0),
                    #[trigger] out@[j],
                ),
        decreases layers@.len() - i,
    {
        let l: &Layer = &layers[i];
        let none: AdjustCode = (0, [zero, zero, zero, zero]);
        let (adjust_kind, adjust): AdjustCode = match &l.kind {
            LayerKind::Adjustment(_) => codes[i],
            _ => none,
        };
        let ranges: Option<&[Scalar; 4]> = blend_if.get(&l.id.0);
        let d: LayerDraw = LayerDraw {
            id: l.id,
            opacity: l.opacity,
            blend: l.blend.shader_id(),
            visible: l.visible,
            adjust_kind,
            adjust,
            has_blend_if: ranges.is_some(),
            blend_if: match ranges {
                Some(b) => *b,
                None => [zero, one, zero, one],
            },
            clipped: clipped.contains(&l.id.0),
        };
        proof {
            assert(none.1@ =~= Seq::new(4, |k: int| Scalar { bits: 0 }));
            if ranges is None {
                assert(d.blend_if@ =~= open_ranges());
            }
        }
        out.push(d);
        i = i + 1;
    }
    out
}

/// Two pictures with the same active layer and the same looks have the same
/// fingerprint, whatever the layers are called and whatever else is edited.
pub proof fn law_fingerprint_ignores_names(
    a: Layer,
    b: Layer,
    code: AdjustCode,
    blend_if: Option<Seq<Scalar>>,
    clipped: bool,
)
    requires
        b == (Layer { name: b.name, ..a }),
    ensures
        layer_words(a, code, blend_if, clipped) == layer_words(b, code, blend_if, clipped),
{
}

} // verus!
