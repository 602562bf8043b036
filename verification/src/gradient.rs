//! The gradient editor: colour and opacity rails, geometry, dithering, presets.
//!
//! Stop colours are display-space bytes, as they are picked; a fill takes them in
//! linear light.

use crate::arith::{law_small_numbers_are_exact, signed};
use crate::exact::{
    half_whole, law_difference_is_exact, law_difference_stays_within, law_difference_tracks,
    law_floor, law_order_of_values, law_product_is_exact, law_sum_stays_within, law_sum_tracks,
    law_whole, lemma_constants, lemma_half_whole, lemma_unit, parts, value, within,
};
use crate::geometry::{Point, Size, HALF, ONE};
use crate::scalar::{unit, Scalar};
use vstd::prelude::*;

verus! {

/// 255, the largest byte.
pub const BYTE_MAX: u32 = 0x437f_0000;

pub const QUARTER: u32 = 0x3e80_0000;

pub const THREE_QUARTERS: u32 = 0x3f40_0000;

/// An opaque display-space colour.
#[derive(Clone, Copy, PartialEq, Eq, Structural, Debug)]
pub struct Rgb8 {
    pub r: u8,
    pub g: u8,
    pub b: u8,
}

#[derive(Clone, Copy, PartialEq, Eq, Structural, Debug)]
pub struct EditColorStop {
    pub pos: Scalar,
    pub color: Rgb8,
}

#[derive(Clone, Copy, PartialEq, Eq, Structural, Debug)]
pub struct EditOpacityStop {
    pub pos: Scalar,
    pub alpha: Scalar,
}

#[derive(Clone, Copy, PartialEq, Eq, Structural, Debug)]
pub enum GradientType {
    Linear,
    Radial,
    Angle,
    Reflected,
    Diamond,
}

/// A colour stop in linear light.
#[derive(Clone, Copy, PartialEq, Eq, Debug)]
pub struct ColorStop {
    pub pos: Scalar,
    pub color: [Scalar; 3],
}

/// A gradient in linear light.
pub struct Gradient {
    pub color_stops: Vec<ColorStop>,
    pub opacity_stops: Vec<EditOpacityStop>,
    pub kind: GradientType,
    pub dither: bool,
}

/// A named gradient to start from.
pub struct GradientPreset {
    pub name: &'static str,
    pub colors: Vec<EditColorStop>,
    pub opacities: Vec<EditOpacityStop>,
}

/// The state of the editor.
pub struct GradientEditor {
    pub color_stops: Vec<EditColorStop>,
    pub opacity_stops: Vec<EditOpacityStop>,
    pub kind: GradientType,
    pub dither: bool,
    /// Fill the whole layer at a click instead of along a drag.
    pub fill_layer: bool,
    /// The stops that are being edited.
    pub sel_color: usize,
    pub sel_opacity: usize,
}

/// A colour stop, given by its bit pattern and its bytes.
pub open spec fn stop(pos: u32, r: u8, g: u8, b: u8) -> EditColorStop {
    EditColorStop { pos: Scalar { bits: pos }, color: Rgb8 { r, g, b } }
}

/// An opacity stop, given by its bit patterns.
pub open spec fn fade(pos: u32, alpha: u32) -> EditOpacityStop {
    EditOpacityStop { pos: Scalar { bits: pos }, alpha: Scalar { bits: alpha } }
}

fn color_stop(pos: u32, r: u8, g: u8, b: u8) -> (s: EditColorStop)
    ensures
        s == stop(pos, r, g, b),
{
    EditColorStop { pos: Scalar { bits: pos }, color: Rgb8 { r, g, b } }
}

fn opacity_stop(pos: u32, alpha: u32) -> (s: EditOpacityStop)
    ensures
        s == fade(pos, alpha),
{
    EditOpacityStop { pos: Scalar { bits: pos }, alpha: Scalar { bits: alpha } }
}

/// The names of the presets, in the order in which they are listed.
pub open spec fn preset_names() -> Seq<Seq<char>> {
    seq!["Foreground→Transparent"@, "Black→White"@, "Spectrum"@, "Sunset"@]
}

/// The colour rail of a preset.
pub open spec fn preset_colors(k: int) -> Seq<EditColorStop> {
    if k == 0 {
        seq![stop(0, 20, 120, 230), stop(ONE, 20, 120, 230)]
    } else if k == 1 {
        seq![stop(0, 0, 0, 0), stop(ONE, 255, 255, 255)]
    } else if k == 2 {
        seq![
            stop(0, 255, 0, 0),
            stop(QUARTER, 255, 255, 0),
            stop(HALF, 0, 255, 0),
            stop(THREE_QUARTERS, 0, 128, 255),
            stop(ONE, 180, 0, 255),
        ]
    } else {
        seq![stop(0, 255, 94, 58), stop(HALF, 255, 175, 64), stop(ONE, 88, 28, 135)]
    }
}

/// The opacity rail of a preset.
pub open spec fn preset_opacities(k: int) -> Seq<EditOpacityStop> {
    if k == 0 {
        seq![fade(0, ONE), fade(ONE, 0)]
    } else {
        seq![fade(0, ONE), fade(ONE, ONE)]
    }
}

impl GradientPreset {
    pub open spec fn holds(self, k: int) -> bool {
        &&& self.name@ == preset_names()[k]
        &&& self.colors@ == preset_colors(k)
        &&& self.opacities@ == preset_opacities(k)
    }
}

/// The presets.
pub fn presets() -> (r: Vec<GradientPreset>)
    ensures
        r@.len() == 4,
        forall|k: int| 0 <= k < 4 ==> (#[trigger] r@[k]).holds(k),
{
    let mut r: Vec<GradientPreset> = Vec::new();
    r.push(
        GradientPreset {
            name: "Foreground→Transparent",
            colors: vec![color_stop(0, 20, 120, 230), color_stop(ONE, 20, 120, 230)],
            opacities: vec![opacity_stop(0, ONE), opacity_stop(ONE, 0)],
        },
    );
    r.push(
        GradientPreset {
            name: "Black→White",
            colors: vec![color_stop(0, 0, 0, 0), color_stop(ONE, 255, 255, 255)],
            opacities: vec![opacity_stop(0, ONE), opacity_stop(ONE, ONE)],
        },
    );
    r.push(
        GradientPreset {
            name: "Spectrum",
            colors: vec![
                color_stop(0, 255, 0, 0),
                color_stop(QUARTER, 255, 255, 0),
                color_stop(HALF, 0, 255, 0),
                color_stop(THREE_QUARTERS, 0, 128, 255),
                color_stop(ONE, 180, 0, 255),
            ],
            opacities: vec![opacity_stop(0, ONE), opacity_stop(ONE, ONE)],
        },
    );
    r.push(
        GradientPreset {
            name: "Sunset",
            colors: vec![
                color_stop(0, 255, 94, 58),
                color_stop(HALF, 255, 175, 64),
                color_stop(ONE, 88, 28, 135),
            ],
            opacities: vec![opacity_stop(0, ONE), opacity_stop(ONE, ONE)],
        },
    );
    proof {
        assert(r@[0].colors@ =~= preset_colors(0) && r@[0].opacities@ =~= preset_opacities(0));
        assert(r@[1].colors@ =~= preset_colors(1) && r@[1].opacities@ =~= preset_opacities(1));
        assert(r@[2].colors@ =~= preset_colors(2) && r@[2].opacities@ =~= preset_opacities(2));
        assert(r@[3].colors@ =~= preset_colors(3) && r@[3].opacities@ =~= preset_opacities(3));
    }
    r
}

/// The place of a preset in the list, or the number of presets.
pub open spec fn preset_place(name: Seq<char>) -> int {
    let n = preset_names();
    if name == n[0] {
        0
    } else if name == n[1] {
        1
    } else if name == n[2] {
        2
    } else if name == n[3] {
        3
    } else {
        4
    }
}

/// A byte as a number from 0 to 1.
pub open spec fn byte_level(b: u8) -> Scalar {
    Scalar::whole(b as int).quotient(Scalar { bits: BYTE_MAX })
}

/// A byte as a number from 0 to 1.
pub fn level_of(b: u8) -> (r: Scalar)
    ensures
        r == byte_level(b),
{
    Scalar::from_u32(b as u32).over(Scalar { bits: BYTE_MAX })
}

/// `c` is a stop's colour in linear light.
pub open spec fn linear_stop<F: Fn(Scalar) -> Scalar>(
    linear: F,
    s: EditColorStop,
    c: ColorStop,
) -> bool {
    &&& c.pos == s.pos
    &&& call_ensures(linear, (byte_level(s.color.r),), c.color@[0])
    &&& call_ensures(linear, (byte_level(s.color.g),), c.color@[1])
    &&& call_ensures(linear, (byte_level(s.color.b),), c.color@[2])
}

/// Where a new stop goes: half the rail further than the last one, starting over
/// at the end.
pub open spec fn next_pos(last: Scalar) -> Scalar {
    last.sum(Scalar { bits: HALF }).fraction_part()
}

impl Default for GradientEditor {
    fn default() -> (r: GradientEditor)
        ensures
            r.color_stops@ == preset_colors(0),
            r.opacity_stops@ == preset_opacities(0),
            r.kind == GradientType::Linear,
            r.dither,
            !r.fill_layer,
            r.sel_color == 0,
            r.sel_opacity == 0,
    {
        let r: GradientEditor = GradientEditor {
            color_stops: vec![color_stop(0, 20, 120, 230), color_stop(ONE, 20, 120, 230)],
            opacity_stops: vec![opacity_stop(0, ONE), opacity_stop(ONE, 0)],
            kind: GradientType::Linear,
            dither: true,
            fill_layer: false,
            sel_color: 0,
            sel_opacity: 0,
        };
        assert(r.color_stops@ =~= preset_colors(0));
        assert(r.opacity_stops@ =~= preset_opacities(0));
        r
    }
}

impl GradientEditor {
    /// Everything but the rails and the stops being edited.
    pub open spec fn same_settings(self, other: GradientEditor) -> bool {
        &&& self.kind == other.kind
        &&& self.dither == other.dither
        &&& self.fill_layer == other.fill_layer
    }

    /// Take over a preset's rails. An unknown name changes nothing.
    pub fn load_preset(&mut self, name: &str)
        ensures
            preset_place(name@) == 4 ==> *final(self) == *old(self),
            preset_place(name@) < 4 ==> {
                &&& final(self).color_stops@ == preset_colors(preset_place(name@))
                &&& final(self).opacity_stops@ == preset_opacities(preset_place(name@))
                &&& final(self).sel_color == 0
                &&& final(self).sel_opacity == 0
                &&& final(self).same_settings(*old(self))
            },
    {
        let wanted: String = name.to_owned();
        let mut list: Vec<GradientPreset> = presets();
        let mut k: usize = 0;
        while k < 4
            invariant
                k <= 4,
                wanted@ == name@,
                *self == *old(self),
                list@.len() == 4,
                forall|j: int| 0 <= j < 4 ==> (#[trigger] list@[j]).holds(j),
                forall|j: int| 0 <= j < k ==> name@ != #[trigger] preset_names()[j],
            decreases 4 - k,
        {
            assert(list@[k as int].holds(k as int));
            if list[k].name.to_owned() == wanted {
                let p: GradientPreset = list.remove(k);
                self.color_stops = p.colors;
                self.opacity_stops = p.opacities;
                self.sel_color = 0;
                self.sel_opacity = 0;
                proof {
                    let n = preset_names();
                    assert(k == 0 || name@ != n[0]);
                    assert(k <= 1 || name@ != n[1]);
                    assert(k <= 2 || name@ != n[2]);
                    assert(preset_place(name@) == k);
                }
                return;
            }
            k = k + 1;
        }
        proof {
            let n = preset_names();
            assert(name@ != n[0] && name@ != n[1] && name@ != n[2] && name@ != n[3]);
        }
    }

    /// The gradient in linear light, given the transfer from display space.
    pub fn to_core<F: Fn(Scalar) -> Scalar>(&self, linear: &F) -> (g: Gradient)
        requires
            forall|x: Scalar| #[trigger] call_requires(*linear, (x,)),
        ensures
            g.color_stops@.len() == self.color_stops@.len(),
            forall|i: int|
                0 <= i < g.color_stops@.len() ==> linear_stop(
                    *linear,
                    self.color_stops@[i],
                    #[trigger] g.color_stops@[i],
                ),
            g.opacity_stops@ == self.opacity_stops@,
            g.kind == self.kind,
            g.dither == self.dither,
    {
        let mut color_stops: Vec<ColorStop> = Vec::new();
        let mut i: usize = 0;
        while i < self.color_stops.len()
            invariant
                i <= self.color_stops@.len(),
                forall|x: Scalar| #[trigger] call_requires(*linear, (x,)),
                color_stops@.len() == i,
                forall|j: int|
                    0 <= j < i ==> linear_stop(
                        *linear,
                        self.color_stops@[j],
                        #[trigger] color_stops@[j],
                    ),
            decreases self.color_stops@.len() - i,
        {
            let s: EditColorStop = self.color_stops[i];
            color_stops.push(
                ColorStop {
                    pos: s.pos,
                    color: [
                        linear(level_of(s.color.r)),
                        linear(level_of(s.color.g)),
                        linear(level_of(s.color.b)),
                    ],
                },
            );
            i = i + 1;
        }
        let mut opacity_stops: Vec<EditOpacityStop> = Vec::new();
        let mut k: usize = 0;
        while k < self.opacity_stops.len()
            invariant
                k <= self.opacity_stops@.len(),
                opacity_stops@ == self.opacity_stops@.take(k as int),
            decreases self.opacity_stops@.len() - k,
        {
            opacity_stops.push(self.opacity_stops[k]);
            assert(self.opacity_stops@.take(k + 1) =~= self.opacity_stops@.take(k as int).push(
                self.opacity_stops@[k as int],
            ));
            k = k + 1;
        }
        assert(self.opacity_stops@.take(k as int) =~= self.opacity_stops@);
        Gradient { color_stops, opacity_stops, kind: self.kind, dither: self.dither }
    }

    /// Add a colour stop after the last one, with its colour.
    pub fn add_color_stop(&mut self)
        ensures
            final(self).color_stops@ == old(self).color_stops@.push({
                let last = if old(self).color_stops@.len() > 0 {
                    old(self).color_stops@.last()
                } else {
                    stop(ONE, 255, 255, 255)
                };
                EditColorStop { pos: next_pos(last.pos), ..last }
            }),
            final(self).opacity_stops == old(self).opacity_stops,
            final(self).same_settings(*old(self)),
            final(self).sel_color == old(self).sel_color,
            final(self).sel_opacity == old(self).sel_opacity,
    {
        let n: usize = self.color_stops.len();
        let last: EditColorStop = if n > 0 {
            self.color_stops[n - 1]
        } else {
            color_stop(ONE, 255, 255, 255)
        };
        let pos: Scalar = last.pos.plus(Scalar { bits: HALF }).fract();
        self.color_stops.push(EditColorStop { pos, ..last });
    }

    /// Add an opacity stop after the last one, with its opacity.
    pub fn add_opacity_stop(&mut self)
        ensures
            final(self).opacity_stops@ == old(self).opacity_stops@.push({
                let last = if old(self).opacity_stops@.len() > 0 {
                    old(self).opacity_stops@.last()
                } else {
                    fade(ONE, ONE)
                };
                EditOpacityStop { pos: next_pos(last.pos), ..last }
            }),
            final(self).color_stops == old(self).color_stops,
            final(self).same_settings(*old(self)),
            final(self).sel_color == old(self).sel_color,
            final(self).sel_opacity == old(self).sel_opacity,
    {
        let n: usize = self.opacity_stops.len();
        let last: EditOpacityStop = if n > 0 {
            self.opacity_stops[n - 1]
        } else {
            opacity_stop(ONE, ONE)
        };
        let pos: Scalar = last.pos.plus(Scalar { bits: HALF }).fract();
        self.opacity_stops.push(EditOpacityStop { pos, ..last });
    }

    /// Remove a colour stop. The only one stays.
    pub fn remove_color_stop(&mut self, i: usize)
        ensures
            final(self).color_stops@ == (if old(self).color_stops@.len() > 1 && i
                < old(self).color_stops@.len() {
                old(self).color_stops@.remove(i as int)
            } else {
                old(self).color_stops@
            }),
            final(self).opacity_stops == old(self).opacity_stops,
            final(self).same_settings(*old(self)),
            final(self).sel_color == old(self).sel_color,
            final(self).sel_opacity == old(self).sel_opacity,
    {
        if self.color_stops.len() > 1 && i < self.color_stops.len() {
            self.color_stops.remove(i);
        }
    }

    /// Remove an opacity stop. The only one stays.
    pub fn remove_opacity_stop(&mut self, i: usize)
        ensures
            final(self).opacity_stops@ == (if old(self).opacity_stops@.len() > 1 && i
                < old(self).opacity_stops@.len() {
                old(self).opacity_stops@.remove(i as int)
            } else {
                old(self).opacity_stops@
            }),
            final(self).color_stops == old(self).color_stops,
            final(self).same_settings(*old(self)),
            final(self).sel_color == old(self).sel_color,
            final(self).sel_opacity == old(self).sel_opacity,
    {
        if self.opacity_stops.len() > 1 && i < self.opacity_stops.len() {
            self.opacity_stops.remove(i);
        }
    }
}

/// The axis of a fill of the whole layer: from edge to edge at half height.
pub fn fill_axis(size: Size) -> (r: (Point, Point))
    ensures
        r.0.x.bits == 0,
        r.0.y == Scalar::whole(size.height as int).product(Scalar { bits: HALF }),
        r.1.x == Scalar::whole(size.width as int),
        r.1.y == r.0.y,
        1 <= size.height <= 0x100_0000 ==> 2real * value(r.0.y) == size.height as real,
        size.width <= 0x100_0000 ==> value(r.1.x) == size.width as real,
{
    proof {
        let (h, half) = (size.height as int, Scalar { bits: HALF });
        lemma_constants();
        if 1 <= h <= 0x100_0000 {
            law_whole(h);
            lemma_half_whole(h);
            law_product_is_exact(Scalar::whole(h), half, half_whole(h));
        }
        if size.width <= 0x100_0000 {
            law_whole(size.width as int);
        }
    }
    let mid: Scalar = Scalar::from_u32(size.height).times(Scalar { bits: HALF });
    (
        Point { x: Scalar::zero(), y: mid },
        Point { x: Scalar::from_u32(size.width), y: mid },
    )
}

/// The editor keeps at least one stop on each rail, whatever is removed.
pub proof fn law_a_stop_remains<T>(s: Seq<T>, i: int)
    requires
        s.len() > 0,
    ensures
        (if s.len() > 1 && 0 <= i < s.len() {
            s.remove(i)
        } else {
            s
        }).len() > 0,
{
}

/// Every preset is found under the name it is listed under.
pub proof fn law_presets_are_found(k: int)
    requires
        0 <= k < 4,
    ensures
        preset_place(preset_names()[k]) == k,
{
    reveal_strlit("Foreground→Transparent");
    reveal_strlit("Black→White");
    reveal_strlit("Spectrum");
    reveal_strlit("Sunset");
    let n = preset_names();
    assert(n[0].len() == 22 && n[1].len() == 11 && n[2].len() == 8 && n[3].len() == 6);
}

/// A new stop goes half of the rail on from the last one: after it where there is room, and
/// otherwise before it.
pub proof fn law_next_stop_is_half_a_rail_on(last: Scalar)
    requires
        last.is_finite() && 0real <= value(last) <= 1real,
    ensures
        next_pos(last).is_finite(),
        0real <= value(next_pos(last)) < 1real,
        2real * value(last) < 1real - parts(8real) ==> within(
            value(next_pos(last)),
            value(last) + 1real / 2real,
            parts(8real),
        ),
        2real * value(last) >= 1real ==> within(
            value(next_pos(last)),
            value(last) - 1real / 2real,
            parts(8real),
        ),
{
    let (zero, half, one) = (Scalar { bits: 0 }, Scalar { bits: HALF }, Scalar { bits: ONE });
    let x = value(last);
    lemma_constants();
    lemma_unit();
    law_sum_tracks(last, half, x, 1real / 2real, 0real, 0real, 2real, parts(3real));
    law_sum_stays_within(last, half, one);
    law_sum_stays_within(last, half, half);
    let y = last.sum(half);
    law_order_of_values(one, y);
    law_order_of_values(y, one);
    law_order_of_values(half, y);
    lemma_whole_of(y);
    let w = y.whole_part();
    law_difference_tracks(y, w, value(y), value(w), 0real, 0real, 1real, parts(2real));
    let r = y.difference(w);
    law_difference_stays_within(y, w, zero);
    law_order_of_values(zero, r);
    if value(y) < 1real {
        law_difference_is_exact(y, w, y);
    }
}

/// The whole part of a number from 0 up to 2.
proof fn lemma_whole_of(y: Scalar)
    requires
        y.is_finite() && !y.negative(),
        1real / 2real <= value(y) < 2real,
    ensures
        y.whole_part().is_finite(),
        value(y.whole_part()) == (if value(y) < 1real {
            0real
        } else {
            1real
        }),
{
    let two = Scalar { bits: 0x4000_0000 };
    lemma_constants();
    law_order_of_values(y, two);
    let n: int = if value(y) < 1real {
        0
    } else {
        1
    };
    law_floor(y, n);
    assert(y.floor_int() == y.abs_scaled() / unit());
    law_whole(n);
    law_small_numbers_are_exact(n);
    let w = Scalar::whole(n);
    assert(signed(false, w.magnitude()) == w);
}

} // verus!
