//! The filters that run on the active layer, as passes for the renderer. Angles come
//! in degrees, and the renderer takes radians.

use crate::editor::PigmentApp;
use crate::exact::{
    half_whole, law_product_is_exact, law_product_tracks, law_quotient, law_whole, lemma_constants,
    lemma_half_whole, lemma_pattern, lemma_unit, parts, value, within,
};
use crate::geometry::{Point, Size, HALF, HUNDRED};
use crate::scalar::Scalar;
use vstd::arithmetic::power2::*;
use vstd::prelude::*;

verus! {

/// The renderer's numbers of the distortions.
pub const TWIRL: u32 = 8;

pub const PINCH: u32 = 9;

pub const RIPPLE: u32 = 10;

pub const TO_POLAR: u32 = 11;

pub const FROM_POLAR: u32 = 12;

/// Pi, and 180, the degrees that it stands for.
pub const PI: u32 = 0x4049_0fdb;

pub const HALF_TURN: u32 = 0x4334_0000;

/// An angle of so many degrees in radians: the degrees times pi / 180.
pub open spec fn radians(degrees: Scalar) -> Scalar {
    degrees.product((Scalar { bits: PI }).quotient(Scalar { bits: HALF_TURN }))
}

fn to_radians(degrees: Scalar) -> (r: Scalar)
    ensures
        r == radians(degrees),
{
    degrees.times(Scalar { bits: PI }.over(Scalar { bits: HALF_TURN }))
}

/// A pass of the renderer over the active layer. Its angles are in radians.
#[derive(Clone, Copy, PartialEq, Eq, Debug)]
pub enum FilterPass {
    Filter { kind: u32, radius: Scalar, amount: Scalar },
    MotionBlur { angle: Scalar, distance: Scalar },
    RadialBlur { center: Point, spin: bool, amount: Scalar, samples: u32 },
    Distort { kind: u32, center: Point, amount: Scalar, radius: Scalar, wave: Point },
}

/// The middle of the canvas.
pub open spec fn middle(size: Size) -> Point {
    Point {
        x: Scalar::whole(size.width as int).product(Scalar { bits: HALF }),
        y: Scalar::whole(size.height as int).product(Scalar { bits: HALF }),
    }
}

impl PigmentApp {
    fn middle_of_canvas(&self) -> (r: Point)
        ensures
            r == middle(self.doc.size),
    {
        let half: Scalar = Scalar { bits: HALF };
        Point {
            x: Scalar::from_u32(self.doc.size.width).times(half),
            y: Scalar::from_u32(self.doc.size.height).times(half),
        }
    }

    pub fn do_filter(&mut self, kind: u32, radius: Scalar, amount: Scalar) -> (r: FilterPass)
        ensures
            r == (FilterPass::Filter { kind, radius, amount }),
            *final(self) == (PigmentApp { force_composite: true, ..*old(self) }),
    {
        self.force_composite = true;
        FilterPass::Filter { kind, radius, amount }
    }

    /// Blur along a direction, given in degrees, over a distance to each side.
    pub fn do_motion_blur(&mut self, angle_deg: Scalar, distance: Scalar) -> (r: FilterPass)
        ensures
            r == (FilterPass::MotionBlur { angle: radians(angle_deg), distance }),
            *final(self) == (PigmentApp { force_composite: true, ..*old(self) }),
    {
        self.force_composite = true;
        FilterPass::MotionBlur { angle: to_radians(angle_deg), distance }
    }

    /// Blur about the middle of the canvas: by an angle in degrees, or towards it by
    /// a percentage.
    pub fn do_radial_blur(&mut self, spin: bool, amount: Scalar, samples: u32) -> (r: FilterPass)
        ensures
            r == (FilterPass::RadialBlur {
                center: middle(old(self).doc.size),
                spin,
                amount: if spin {
                    radians(amount)
                } else {
                    amount.quotient(Scalar { bits: HUNDRED })
                },
                samples,
            }),
            *final(self) == (PigmentApp { force_composite: true, ..*old(self) }),
    {
        self.force_composite = true;
        let amount: Scalar = if spin {
            to_radians(amount)
        } else {
            amount.over(Scalar { bits: HUNDRED })
        };
        FilterPass::RadialBlur { center: self.middle_of_canvas(), spin, amount, samples }
    }

    fn distort(&mut self, kind: u32, amount: Scalar, radius: Scalar, wave: Point) -> (r: FilterPass)
        ensures
            r == (FilterPass::Distort {
                kind,
                center: middle(old(self).doc.size),
                amount,
                radius,
                wave,
            }),
            *final(self) == (PigmentApp { force_composite: true, ..*old(self) }),
    {
        self.force_composite = true;
        FilterPass::Distort { kind, center: self.middle_of_canvas(), amount, radius, wave }
    }

    /// Rotate about the middle of the canvas by an angle in degrees, less the further
    /// away, up to a radius.
    pub fn do_twirl(&mut self, angle_deg: Scalar, radius: Scalar) -> (r: FilterPass)
        ensures
            r == (FilterPass::Distort {
                kind: TWIRL,
                center: middle(old(self).doc.size),
                amount: radians(angle_deg),
                radius,
                wave: Point { x: Scalar { bits: 0 }, y: Scalar { bits: 0 } },
            }),
            *final(self) == (PigmentApp { force_composite: true, ..*old(self) }),
    {
        self.distort(TWIRL, to_radians(angle_deg), radius, Point::zero())
    }

    /// Draw towards the middle of the canvas, or bulge out of it.
    pub fn do_pinch(&mut self, amount: Scalar, radius: Scalar) -> (r: FilterPass)
        ensures
            r == (FilterPass::Distort {
                kind: PINCH,
                center: middle(old(self).doc.size),
                amount,
                radius,
                wave: Point { x: Scalar { bits: 0 }, y: Scalar { bits: 0 } },
            }),
            *final(self) == (PigmentApp { force_composite: true, ..*old(self) }),
    {
        self.distort(PINCH, amount, radius, Point::zero())
    }

    /// Displace each axis by a wave along the other.
    pub fn do_ripple(&mut self, amplitude: Scalar, wavelength: Scalar) -> (r: FilterPass)
        ensures
            r == (FilterPass::Distort {
                kind: RIPPLE,
                center: middle(old(self).doc.size),
                amount: Scalar { bits: 0 },
                radius: Scalar { bits: 0 },
                wave: Point { x: amplitude, y: wavelength },
            }),
            *final(self) == (PigmentApp { force_composite: true, ..*old(self) }),
    {
        self.distort(
            RIPPLE,
            Scalar::zero(),
            Scalar::zero(),
            Point { x: amplitude, y: wavelength },
        )
    }

    /// Turn rectangular into polar coordinates, or back.
    pub fn do_polar(&mut self, to_polar: bool) -> (r: FilterPass)
        ensures
            r == (FilterPass::Distort {
                kind: if to_polar {
                    TO_POLAR
                } else {
                    FROM_POLAR
                },
                center: middle(old(self).doc.size),
                amount: Scalar { bits: 0 },
                radius: Scalar { bits: 0 },
                wave: Point { x: Scalar { bits: 0 }, y: Scalar { bits: 0 } },
            }),
            *final(self) == (PigmentApp { force_composite: true, ..*old(self) }),
    {
        let kind: u32 = if to_polar {
            TO_POLAR
        } else {
            FROM_POLAR
        };
        self.distort(kind, Scalar::zero(), Scalar::zero(), Point::zero())
    }
}

/// The middle of the canvas is half of its width from the left and half of its height from
/// the top.
pub proof fn law_middle_is_halfway(size: Size)
    requires
        1 <= size.width <= 0x100_0000 && 1 <= size.height <= 0x100_0000,
    ensures
        middle(size).x.is_finite() && middle(size).y.is_finite(),
        2real * value(middle(size).x) == size.width as real,
        2real * value(middle(size).y) == size.height as real,
{
    lemma_constants();
    let half = Scalar { bits: HALF };
    law_whole(size.width as int);
    law_whole(size.height as int);
    lemma_half_whole(size.width as int);
    lemma_half_whole(size.height as int);
    law_product_is_exact(Scalar::whole(size.width as int), half, half_whole(size.width as int));
    law_product_is_exact(Scalar::whole(size.height as int), half, half_whole(size.height as int));
}

/// A half turn is 180 degrees and about 3.14159265 in radians, and other angles are in
/// proportion.
pub proof fn law_half_turn_is_pi(degrees: Scalar)
    requires
        degrees.is_finite() && -360real <= value(degrees) <= 360real,
    ensures
        radians(degrees).is_finite(),
        within(
            value(radians(degrees)),
            (value(degrees) / 180real) * (314159265real / 100000000real),
            parts(1024real),
        ),
{
    let (pi, turn) = (Scalar { bits: PI }, Scalar { bits: HALF_TURN });
    lemma2_to64();
    lemma_unit();
    lemma_pattern(pi, 22, 0xc9_0fdb, 0x40_0000);
    lemma_pattern(turn, 16, 0xb4_0000, 0x1_0000);
    law_quotient(pi, turn);
    let k = pi.quotient(turn);
    let p = 314159265real / 18000000000real;
    assert(within(value(k), p, parts(1real)));
    let x = value(degrees);
    law_product_tracks(
        degrees,
        k,
        x,
        p,
        0real,
        parts(1real),
        360real,
        p,
        parts(360real),
        7real,
        parts(368real),
    );
}

} // verus!
