//! The bars of a histogram.

use crate::arith::{law_counts_are_finite, law_quotient_by_itself, law_times_one};
use crate::exact::{
    law_order_of_values, law_product, law_product_is_exact, law_product_tracks, law_quotient,
    law_quotient_is_exact, law_sum_tracks, law_whole, lemma_constants, lemma_unit, parts, size,
    value, within,
};
use crate::geometry::Rect;
use crate::scalar::Scalar;
use vstd::prelude::*;

verus! {

/// The largest of the first `n` counts, and at least 1.
pub open spec fn tallest(counts: Seq<u32>, n: int) -> int
    decreases n,
{
    if n <= 0 {
        1
    } else if counts[n - 1] > tallest(counts, n - 1) {
        counts[n - 1] as int
    } else {
        tallest(counts, n - 1)
    }
}

/// Where the bar of a count stands and how high it is.
pub open spec fn bar(counts: Seq<u32>, area: Rect, i: int) -> (Scalar, Scalar) {
    let n = counts.len() as int;
    (
        area.min.x.sum(
            area.spec_width().product(Scalar::whole(i)).quotient(Scalar::whole(n)),
        ),
        area.spec_height().product(
            Scalar::whole(counts[i] as int).quotient(Scalar::whole(tallest(counts, n))),
        ),
    )
}

/// The bars of a histogram in an area: their positions and heights.
pub fn bars(counts: &Vec<u32>, area: Rect) -> (r: Vec<(Scalar, Scalar)>)
    requires
        counts@.len() <= u32::MAX,
    ensures
        r@.len() == counts@.len(),
        forall|i: int| 0 <= i < r@.len() ==> #[trigger] r@[i] == bar(counts@, area, i),
{
    let n: usize = counts.len();
    let mut top: u32 = 1;
    let mut k: usize = 0;
    while k < n
        invariant
            k <= n == counts@.len(),
            top == tallest(counts@, k as int),
        decreases n - k,
    {
        if counts[k] > top {
            top = counts[k];
        }
        k = k + 1;
    }
    let (width, height): (Scalar, Scalar) = (area.width(), area.height());
    let mut r: Vec<(Scalar, Scalar)> = Vec::new();
    let mut i: usize = 0;
    while i < n
        invariant
            i <= n == counts@.len(),
            n <= u32::MAX,
            top == tallest(counts@, n as int),
            width == area.spec_width(),
            height == area.spec_height(),
            r@.len() == i,
            forall|j: int| 0 <= j < i ==> #[trigger] r@[j] == bar(counts@, area, j),
        decreases n - i,
    {
        let x: Scalar = area.min.x.plus(
            width.times(Scalar::from_u32(i as u32)).over(Scalar::from_u32(n as u32)),
        );
        let h: Scalar = height.times(Scalar::from_u32(counts[i]).over(Scalar::from_u32(top)));
        r.push((x, h));
        i = i + 1;
    }
    r
}

/// No count is above the one that the tallest bar stands for.
pub proof fn law_no_count_is_above_the_tallest(counts: Seq<u32>, n: int, i: int)
    requires
        0 <= i < n <= counts.len(),
    ensures
        counts[i] <= tallest(counts, n),
    decreases n,
{
    if i < n - 1 {
        law_no_count_is_above_the_tallest(counts, n - 1, i);
    }
}

/// The tallest count has a bar as high as the area, and a count of nothing has none.
pub proof fn law_tallest_bar_fills_the_area(counts: Seq<u32>, area: Rect, i: int)
    requires
        0 <= i < counts.len(),
        area.spec_height().is_finite(),
    ensures
        counts[i] == tallest(counts, counts.len() as int) ==> bar(counts, area, i).1
            == area.spec_height(),
        counts[i] == 0 ==> value(bar(counts, area, i).1) == 0real,
{
    let n = counts.len() as int;
    let t = tallest(counts, n);
    let h = area.spec_height();
    law_no_count_is_above_the_tallest(counts, n, i);
    lemma_tallest_fits(counts, n);
    law_counts_are_finite(t);
    if counts[i] == t {
        law_quotient_by_itself(Scalar::whole(t));
        law_times_one(h);
    }
    if counts[i] == 0 {
        let zero = Scalar { bits: 0 };
        lemma_constants();
        law_whole(0);
        let q = Scalar::whole(0).quotient(Scalar::whole(t));
        let v = value(Scalar::whole(t));
        law_order_of_values(zero, Scalar::whole(t));
        assert(0real / v == 0real) by (nonlinear_arith)
            requires
                v > 0real,
        ;
        law_quotient_is_exact(Scalar::whole(0), Scalar::whole(t), zero);
        assert(value(h) * value(q) == 0real) by (nonlinear_arith)
            requires
                value(q) == 0real,
        ;
        law_product_is_exact(h, q, zero);
    }
}

proof fn lemma_tallest_fits(counts: Seq<u32>, n: int)
    requires
        0 <= n <= counts.len(),
    ensures
        1 <= tallest(counts, n) <= 0xffff_ffff,
    decreases n,
{
    if n > 0 {
        lemma_tallest_fits(counts, n - 1);
    }
}

/// A bar's height is to the area's as its count is to the tallest, and the bars stand
/// evenly spread over the area's width, the first of them at its left side.
pub proof fn law_bars_are_to_scale(counts: Seq<u32>, area: Rect, i: int)
    requires
        0 <= i < counts.len() <= 0x1_0000,
        area.spec_height().is_finite() && area.spec_width().is_finite(),
        area.min.x.is_finite() && size(value(area.min.x)) <= 0x4000real,
        0real <= value(area.spec_height()) <= 0x4000real,
        0real <= value(area.spec_width()) <= 0x4000real,
        tallest(counts, counts.len() as int) <= 0x100_0000,
    ensures
        ({
            let b = bar(counts, area, i);
            let t = tallest(counts, counts.len() as int);
            &&& b.0.is_finite() && b.1.is_finite()
            &&& within(
                value(b.1),
                value(area.spec_height()) * ((counts[i] as real) / (t as real)),
                1real / 128real,
            )
            &&& within(
                value(b.0),
                value(area.min.x) + (value(area.spec_width()) * (i as real)) / (counts.len()
                    as real),
                1real / 128real,
            )
        }),
{
    let n = counts.len() as int;
    let t = tallest(counts, n);
    let (h, w) = (area.spec_height(), area.spec_width());
    lemma_constants();
    lemma_unit();
    law_no_count_is_above_the_tallest(counts, n, i);
    lemma_tallest_fits(counts, n);
    law_whole(t);
    law_whole(counts[i] as int);
    law_whole(i);
    law_whole(n);
    let (c, m) = (counts[i] as real, t as real);
    let z = c / m;
    assert(0real <= z <= 1real) by (nonlinear_arith)
        requires
            z == c / m,
            0real <= c <= m,
            m >= 1real,
    ;
    let q = Scalar::whole(counts[i] as int).quotient(Scalar::whole(t));
    law_quotient(Scalar::whole(counts[i] as int), Scalar::whole(t));
    law_product_tracks(
        h,
        q,
        value(h),
        z,
        0real,
        parts(2real),
        0x4000real,
        1real,
        parts(0x8000real),
        0x4000real,
        parts(0xc001real),
    );
    let (wv, iv, nv) = (value(w), i as real, n as real);
    let p = w.product(Scalar::whole(i));
    let x = wv * iv;
    assert(0real <= x <= 0x4000real * nv) by (nonlinear_arith)
        requires
            x == wv * iv,
            0real <= wv <= 0x4000real,
            0real <= iv <= nv,
    ;
    law_product(w, Scalar::whole(i));
    let (pv, r, g) = (value(p), value(p) / nv, x / nv);
    assert(r * nv == pv && g * nv == x) by (nonlinear_arith)
        requires
            r == pv / nv,
            g == x / nv,
            nv >= 1real,
    ;
    let k = 0x100_0000real;
    assert(0real <= g <= 0x4000real && -0x4001real <= k * (r - g) <= 0x4001real)
        by (nonlinear_arith)
        requires
            k == 0x100_0000real,
            r * nv == pv,
            g * nv == x,
            nv >= 1real,
            0real <= x <= 0x4000real * nv,
            -(x + 1real) <= k * (pv - x) <= x + 1real,
    ;
    law_quotient(p, Scalar::whole(n));
    let s = p.quotient(Scalar::whole(n));
    assert(within(value(s), g, parts(0x8004real)));
    law_sum_tracks(
        area.min.x,
        s,
        value(area.min.x),
        g,
        0real,
        parts(0x8004real),
        0x8000real,
        parts(0x1_0006real),
    );
}

} // verus!
