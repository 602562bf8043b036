//! The path tools: the pen, which places anchors and shapes their handles, and the
//! direct selection, which moves them.
//!
//! The path itself is kept elsewhere. What is decided here is which gesture does what
//! to it.

use crate::exact::{
    law_order_of_values, law_quotient, least, lemma_pattern, lemma_unit, parts, size, value, within,
};
use crate::geometry::{lemma_fits_into, Rect, Size, LEAST_EXTENT};
use crate::scalar::Scalar;
use vstd::arithmetic::power2::*;
use vstd::prelude::*;

verus! {

/// 8, how near to an anchor the pointer has to be, in screen points.
pub const PICK_RANGE: u32 = 0x4100_0000;

/// How many anchors a path has before it can be filled.
pub const LEAST_ANCHORS: usize = 2;

/// How near to an anchor the pointer has to be, in document pixels, where the
/// document is shown in `doc_rect`.
pub open spec fn reach_of_pick(doc_rect: Rect, size: Size) -> Scalar {
    let columns = if size.width == 0 {
        1
    } else {
        size.width as int
    };
    let scale = doc_rect.spec_width().quotient(Scalar::whole(columns));
    (Scalar { bits: PICK_RANGE }).quotient(scale.greater(Scalar { bits: LEAST_EXTENT }))
}

/// How near to an anchor the pointer has to be, in document pixels.
pub fn pick_reach(doc_rect: Rect, size: Size) -> (r: Scalar)
    ensures
        r == reach_of_pick(doc_rect, size),
{
    let columns: u32 = if size.width == 0 {
        1
    } else {
        size.width
    };
    let scale: Scalar = doc_rect.width().over(Scalar::from_u32(columns));
    Scalar { bits: PICK_RANGE }.over(scale.max(Scalar { bits: LEAST_EXTENT }))
}

/// What the pen does to the path in a frame, in this order.
#[derive(Clone, Copy, PartialEq, Eq, Structural, Debug)]
pub struct PenAction {
    /// A press places an anchor, or closes the path.
    pub press: bool,
    /// A drag shapes the handles of the last anchor.
    pub shape: bool,
    /// A click places an anchor, or closes the path.
    pub click: bool,
}

/// A frame with the pen. `dragging` says whether handles were being shaped, `closed`
/// whether the path is closed once the press of this frame is carried out. The new
/// `dragging` and what to do are returned: a press that closes the path shapes
/// nothing, and letting go ends the shaping.
pub fn pen_frame(
    dragging: bool,
    started: bool,
    dragged: bool,
    stopped: bool,
    clicked: bool,
    closed: bool,
) -> (r: (bool, PenAction))
    ensures
        ({
            let shaping = if started {
                !closed
            } else {
                dragging
            };
            &&& r.0 == (shaping && !stopped)
            &&& r.1 == (PenAction { press: started, shape: dragged && shaping, click: clicked })
        }),
{
    let shaping: bool = if started {
        !closed
    } else {
        dragging
    };
    (shaping && !stopped, PenAction { press: started, shape: dragged && shaping, click: clicked })
}

/// A point of a path that can be dragged: an anchor, or one of its handles.
#[derive(Clone, Copy, PartialEq, Eq, Structural, Debug)]
pub struct Handle {
    pub anchor: usize,
    pub part: u8,
}

/// A frame with the direct selection: what is held after it, and what is moved to the
/// pointer in it. A press takes hold of what was picked, be it nothing, and letting go
/// lets go of it.
pub fn grab_frame(
    held: Option<Handle>,
    started: bool,
    picked: Option<Handle>,
    dragged: bool,
    stopped: bool,
) -> (r: (Option<Handle>, Option<Handle>))
    ensures
        ({
            let now = if started {
                picked
            } else {
                held
            };
            &&& r.0 == (if stopped {
                None
            } else {
                now
            })
            &&& r.1 == (if dragged {
                now
            } else {
                None
            })
        }),
{
    let now: Option<Handle> = if started {
        picked
    } else {
        held
    };
    let after: Option<Handle> = if stopped {
        None
    } else {
        now
    };
    let moved: Option<Handle> = if dragged {
        now
    } else {
        None
    };
    (after, moved)
}

/// Whether a path can be filled, and so become a selection or a mask.
pub fn can_fill(anchors: usize) -> (r: bool)
    ensures
        r == (anchors >= 2),
{
    anchors >= LEAST_ANCHORS
}

/// The pointer picks an anchor from as far away on the screen at every zoom: the reach in
/// document pixels, shown at the document's scale, is 8 points.
pub proof fn law_reach_is_the_same_on_the_screen(doc_rect: Rect, size: Size)
    requires
        doc_rect.spec_width().is_finite(),
        1real <= value(doc_rect.spec_width()) <= 0x1_0000real,
        1 <= size.width <= 0x1_0000,
        0x100real * value(doc_rect.spec_width()) >= size.width as real,
    ensures
        reach_of_pick(doc_rect, size).is_finite(),
        within(
            value(reach_of_pick(doc_rect, size)) * (value(doc_rect.spec_width()) / (
            size.width as real)),
            8real,
            parts(64real),
        ),
{
    let (range, least_z) = (Scalar { bits: PICK_RANGE }, Scalar { bits: LEAST_EXTENT });
    let w = doc_rect.spec_width();
    lemma_unit();
    lemma2_to64();
    lemma2_to64_rest();
    lemma_pattern(range, 20, 0x80_0000, 0x10_0000);
    lemma_pattern(least_z, 33, 0x83_126f, 0x2_0000_0000);
    lemma_fits_into(w, size.width as int);
    let scale = w.quotient(Scalar::whole(size.width as int));
    let (wv, n) = (value(w), size.width as real);
    let s = wv / n;
    assert(0x100real * s >= 1real) by (nonlinear_arith)
        requires
            s == wv / n,
            n >= 1real,
            0x100real * wv >= n,
    ;
    law_order_of_values(scale, least_z);
    let t = value(scale);
    let z = 8real / t;
    assert(z * t == 8real && 0real < z <= 0x1000real) by (nonlinear_arith)
        requires
            z == 8real / t,
            0x180real * t >= 1real,
    ;
    law_quotient(range, scale);
    let r = value(range.quotient(scale));
    lemma_reach_shown(r, z, t, s, least());
}

proof fn lemma_reach_shown(r: real, z: real, t: real, s: real, l: real)
    requires
        z * t == 8real,
        0real < z <= 0x1000real,
        0real < t <= 0x2_0000real,
        0real < s,
        within(t, s, parts(2real * s)),
        0real < l,
        0x100_0000_0000real * l <= 1real,
        0x100_0000real * size(r - z) <= z + l,
    ensures
        within(r * s, 8real, parts(64real)),
{
    let n = 0x100_0000real;
    let (d, f) = (r - z, s - t);
    let (p, q, g) = (d * t, z * f, d * f);
    assert(r * s == 8real + p + q + g) by (nonlinear_arith)
        requires
            z * t == 8real,
            d == r - z,
            f == s - t,
            p == d * t,
            q == z * f,
            g == d * f,
    ;
    assert(-9real <= n * p <= 9real) by (nonlinear_arith)
        requires
            p == d * t,
            n == 0x100_0000real,
            z * t == 8real,
            0real < t <= 0x2_0000real,
            -(z + l) <= n * d <= z + l,
            0x100_0000_0000real * l <= 1real,
    ;
    assert(-24real <= n * q <= 24real) by (nonlinear_arith)
        requires
            q == z * f,
            n == 0x100_0000real,
            z * t == 8real,
            z > 0real,
            -(3real * t) <= n * f <= 3real * t,
    ;
    assert(-9real <= n * g <= 9real) by (nonlinear_arith)
        requires
            g == d * f,
            n == 0x100_0000real,
            p == d * t,
            -9real <= n * p <= 9real,
            -t <= f <= t,
            t > 0real,
    ;
}

} // verus!
