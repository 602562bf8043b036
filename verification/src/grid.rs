//! Row-major pixel grids: how a position becomes an index, and the moves that
//! shuffle pixels without looking at their values.

use crate::scalar::Scalar;
use vstd::arithmetic::div_mod::*;
use vstd::arithmetic::mul::*;
use vstd::prelude::*;

verus! {

/// The index of the pixel in column `x` of row `y`, on a grid `w` wide.
pub open spec fn index_of(w: int, x: int, y: int) -> int {
    y * w + x
}

/// Whether column `x` of row `y` lies on a `w` by `h` grid.
pub open spec fn on_grid(w: int, h: int, x: int, y: int) -> bool {
    0 <= x < w && 0 <= y < h
}

/// The value at column `x` of row `y`, one value per pixel.
pub open spec fn cell<T>(s: Seq<T>, w: int, x: int, y: int) -> T {
    s[index_of(w, x, y)]
}

/// Channel `c` of the pixel at column `x` of row `y`, four channels per pixel.
pub open spec fn channel(s: Seq<Scalar>, w: int, x: int, y: int, c: int) -> Scalar {
    s[4 * index_of(w, x, y) + c]
}

/// The number of pixels of a `w` by `h` grid fits the index arithmetic, with
/// room for `k` values per pixel.
pub open spec fn grid_fits(w: int, h: int, k: int) -> bool {
    w * h * k <= u32::MAX
}

/// A position on the grid has an index below the number of pixels, and the index
/// determines the position.
pub proof fn lemma_index(w: int, h: int, x: int, y: int)
    requires
        on_grid(w, h, x, y),
    ensures
        0 <= index_of(w, x, y) < w * h,
        index_of(w, x, y) / w == y,
        index_of(w, x, y) % w == x,
{
    lemma_fundamental_div_mod_converse(index_of(w, x, y), w, y, x);
    assert(y * w + x < w * h) by (nonlinear_arith)
        requires
            0 <= x < w,
            0 <= y < h,
    ;
    assert(y * w >= 0) by (nonlinear_arith)
        requires
            w > 0,
            y >= 0,
    ;
}

/// An index below the number of pixels is that of a position on the grid.
pub proof fn lemma_position(w: int, h: int, i: int)
    requires
        0 <= i < w * h,
        w >= 0,
        h >= 0,
    ensures
        on_grid(w, h, i % w, i / w),
        index_of(w, i % w, i / w) == i,
{
    assert(w > 0 && h > 0) by (nonlinear_arith)
        requires
            0 < w * h,
            w >= 0,
            h >= 0,
    ;
    lemma_fundamental_div_mod(i, w);
    lemma_mod_bound(i, w);
    lemma_mul_is_commutative(w, i / w);
    lemma_div_pos_is_pos(i, w);
    assert(i / w < h) by (nonlinear_arith)
        requires
            i == w * (i / w) + i % w,
            0 <= i % w,
            i < w * h,
            w > 0,
    ;
}

/// The number of pixels of a grid.
pub(crate) fn pixel_count(w: u32, h: u32) -> (n: usize)
    requires
        grid_fits(w as int, h as int, 1),
    ensures
        n == w * h,
{
    proof {
        lemma_mul_nonnegative(w as int, h as int);
    }
    (w as u64 * h as u64) as usize
}

/// Where a mirrored image takes the pixel at column `x` of row `y` from.
pub open spec fn mirror(w: int, h: int, horizontal: bool, x: int, y: int) -> (int, int) {
    if horizontal {
        (w - 1 - x, y)
    } else {
        (x, h - 1 - y)
    }
}

/// `dst` is the `w` by `h` image `src`, mirrored.
pub open spec fn mirrored(
    src: Seq<Scalar>,
    w: int,
    h: int,
    horizontal: bool,
    dst: Seq<Scalar>,
) -> bool {
    &&& dst.len() == src.len()
    &&& forall|x: int, y: int, c: int|
        on_grid(w, h, x, y) && 0 <= c < 4 ==> #[trigger] channel(dst, w, x, y, c) == channel(
            src,
            w,
            mirror(w, h, horizontal, x, y).0,
            mirror(w, h, horizontal, x, y).1,
            c,
        )
    &&& forall|k: int| 4 * (w * h) <= k < dst.len() ==> (#[trigger] dst[k]).bits == 0
}

/// Mirror an RGBA image left to right or top to bottom. Values past the last
/// pixel come out as zeros.
pub fn flip(src: &[Scalar], w: u32, h: u32, horizontal: bool) -> (dst: Vec<Scalar>)
    requires
        src@.len() >= 4 * (w * h),
        grid_fits(w as int, h as int, 4),
    ensures
        mirrored(src@, w as int, h as int, horizontal, dst@),
{
    proof {
        lemma_mul_nonnegative(w as int, h as int);
    }
    let n: usize = pixel_count(w, h);
    let len: usize = src.len();
    let mut dst: Vec<Scalar> = Vec::new();
    let mut k: usize = 0;
    while k < 4 * n
        invariant
            n == w * h,
            4 * n <= len == src@.len(),
            k <= 4 * n,
            dst@.len() == k,
            forall|j: int| 0 <= j < k ==> #[trigger] dst@[j] == flip_source(
                src@,
                w as int,
                h as int,
                horizontal,
                j,
            ),
        decreases 4 * n - k,
    {
        let p: usize = k / 4;
        proof {
            lemma_position(w as int, h as int, p as int);
        }
        let (x, y): (usize, usize) = (p % w as usize, p / w as usize);
        let (sx, sy): (usize, usize) = if horizontal {
            (w as usize - 1 - x, y)
        } else {
            (x, h as usize - 1 - y)
        };
        proof {
            lemma_index(w as int, h as int, sx as int, sy as int);
            lemma_mul_nonnegative(sy as int, w as int);
        }
        dst.push(src[4 * (sy * w as usize + sx) + k % 4]);
        k = k + 1;
    }
    while k < len
        invariant
            n == w * h,
            4 * n <= k <= len == src@.len(),
            dst@.len() == k,
            forall|j: int| 0 <= j < 4 * n ==> #[trigger] dst@[j] == flip_source(
                src@,
                w as int,
                h as int,
                horizontal,
                j,
            ),
            forall|j: int| 4 * n <= j < k ==> (#[trigger] dst@[j]).bits == 0,
        decreases len - k,
    {
        dst.push(Scalar::zero());
        k = k + 1;
    }
    proof {
        assert forall|x: int, y: int, c: int|
            on_grid(w as int, h as int, x, y) && 0 <= c < 4 implies #[trigger] channel(
            dst@,
            w as int,
            x,
            y,
            c,
        ) == channel(
            src@,
            w as int,
            mirror(w as int, h as int, horizontal, x, y).0,
            mirror(w as int, h as int, horizontal, x, y).1,
            c,
        ) by {
            lemma_index(w as int, h as int, x, y);
            let j = 4 * index_of(w as int, x, y) + c;
            assert(j / 4 == index_of(w as int, x, y) && j % 4 == c);
            assert(dst@[j] == flip_source(src@, w as int, h as int, horizontal, j));
        }
    }
    dst
}

spec fn flip_source(src: Seq<Scalar>, w: int, h: int, horizontal: bool, k: int) -> Scalar {
    let (x, y) = mirror(w, h, horizontal, (k / 4) % w, (k / 4) / w);
    channel(src, w, x, y, k % 4)
}

/// Mirroring twice the same way gives the image back.
pub proof fn law_flip_undoes_flip(
    src: Seq<Scalar>,
    w: int,
    h: int,
    horizontal: bool,
    once: Seq<Scalar>,
    twice: Seq<Scalar>,
)
    requires
        w >= 0,
        h >= 0,
        src.len() == 4 * (w * h),
        mirrored(src, w, h, horizontal, once),
        mirrored(once, w, h, horizontal, twice),
    ensures
        twice == src,
{
    assert forall|k: int| 0 <= k < src.len() implies twice[k] == src[k] by {
        let (p, c) = (k / 4, k % 4);
        lemma_position(w, h, p);
        let (x, y) = (p % w, p / w);
        let (mx, my) = mirror(w, h, horizontal, x, y);
        assert(channel(twice, w, x, y, c) == channel(once, w, mx, my, c));
        assert(channel(once, w, mx, my, c) == channel(src, w, x, y, c));
    }
    assert(twice =~= src);
}

/// `dst` is the `dw` by `dh` window of the `sw` by `sh` image `src` whose top
/// left corner is at (`ox`, `oy`); what lies outside `src` is transparent.
pub open spec fn windowed(
    src: Seq<Scalar>,
    sw: int,
    sh: int,
    dst: Seq<Scalar>,
    dw: int,
    dh: int,
    ox: int,
    oy: int,
) -> bool {
    &&& dst.len() == 4 * (dw * dh)
    &&& forall|x: int, y: int, c: int|
        on_grid(dw, dh, x, y) && 0 <= c < 4 ==> #[trigger] channel(dst, dw, x, y, c)
            == window_value(src, sw, sh, x + ox, y + oy, c)
}

/// A channel of an image that goes on, transparent, beyond its edges.
pub open spec fn window_value(
    src: Seq<Scalar>,
    sw: int,
    sh: int,
    x: int,
    y: int,
    c: int,
) -> Scalar {
    if on_grid(sw, sh, x, y) {
        channel(src, sw, x, y, c)
    } else {
        Scalar { bits: 0 }
    }
}

/// Copy a `dw` by `dh` window of an RGBA image, for crops and canvas resizes.
pub fn reposition(
    src: &[Scalar],
    sw: u32,
    sh: u32,
    dw: u32,
    dh: u32,
    ox: i32,
    oy: i32,
) -> (dst: Vec<Scalar>)
    requires
        src@.len() >= 4 * (sw * sh),
        grid_fits(sw as int, sh as int, 4),
        grid_fits(dw as int, dh as int, 4),
    ensures
        windowed(
            src@,
            sw as int,
            sh as int,
            dst@,
            dw as int,
            dh as int,
            ox as int,
            oy as int,
        ),
{
    proof {
        lemma_mul_nonnegative(dw as int, dh as int);
        lemma_mul_nonnegative(sw as int, sh as int);
    }
    let n: usize = pixel_count(dw, dh);
    let mut dst: Vec<Scalar> = Vec::new();
    let mut k: usize = 0;
    while k < 4 * n
        invariant
            n == dw * dh,
            4 * n <= u32::MAX,
            4 * (sw * sh) <= src@.len(),
            4 * (sw * sh) <= u32::MAX,
            k <= 4 * n,
            dst@.len() == k,
            forall|j: int| 0 <= j < k ==> #[trigger] dst@[j] == window_value(
                src@,
                sw as int,
                sh as int,
                (j / 4) % (dw as int) + ox,
                (j / 4) / (dw as int) + oy,
                j % 4,
            ),
        decreases 4 * n - k,
    {
        let p: usize = k / 4;
        proof {
            lemma_position(dw as int, dh as int, p as int);
        }
        let sx: i64 = (p % dw as usize) as i64 + ox as i64;
        let sy: i64 = (p / dw as usize) as i64 + oy as i64;
        if 0 <= sx && sx < sw as i64 && 0 <= sy && sy < sh as i64 {
            proof {
                lemma_index(sw as int, sh as int, sx as int, sy as int);
                lemma_mul_nonnegative(sy as int, sw as int);
            }
            dst.push(src[4 * (sy as usize * sw as usize + sx as usize) + k % 4]);
        } else {
            dst.push(Scalar::zero());
        }
        k = k + 1;
    }
    proof {
        assert forall|x: int, y: int, c: int|
            on_grid(dw as int, dh as int, x, y) && 0 <= c < 4 implies #[trigger] channel(
            dst@,
            dw as int,
            x,
            y,
            c,
        ) == window_value(src@, sw as int, sh as int, x + ox, y + oy, c) by {
            lemma_index(dw as int, dh as int, x, y);
            let j = 4 * index_of(dw as int, x, y) + c;
            assert(j / 4 == index_of(dw as int, x, y) && j % 4 == c);
            assert(dst@[j] == window_value(
                src@,
                sw as int,
                sh as int,
                (j / 4) % (dw as int) + ox,
                (j / 4) / (dw as int) + oy,
                j % 4,
            ));
        }
    }
    dst
}

/// The window that is the whole image is the image.
pub proof fn law_full_window_is_the_image(src: Seq<Scalar>, w: int, h: int, dst: Seq<Scalar>)
    requires
        w >= 0,
        h >= 0,
        src.len() == 4 * (w * h),
        windowed(src, w, h, dst, w, h, 0, 0),
    ensures
        dst == src,
{
    assert forall|k: int| 0 <= k < src.len() implies dst[k] == src[k] by {
        let (p, c) = (k / 4, k % 4);
        lemma_position(w, h, p);
        assert(channel(dst, w, p % w, p / w, c) == channel(src, w, p % w, p / w, c));
    }
    assert(dst =~= src);
}

/// A window of a window that lies within the image is one window of the image.
pub proof fn law_window_of_window(
    src: Seq<Scalar>,
    w: int,
    h: int,
    mid: Seq<Scalar>,
    mw: int,
    mh: int,
    mx: int,
    my: int,
    dst: Seq<Scalar>,
    dw: int,
    dh: int,
    dx: int,
    dy: int,
)
    requires
        windowed(src, w, h, mid, mw, mh, mx, my),
        windowed(mid, mw, mh, dst, dw, dh, dx, dy),
        0 <= dx && dx + dw <= mw,
        0 <= dy && dy + dh <= mh,
    ensures
        windowed(src, w, h, dst, dw, dh, mx + dx, my + dy),
{
    assert forall|x: int, y: int, c: int|
        on_grid(dw, dh, x, y) && 0 <= c < 4 implies #[trigger] channel(dst, dw, x, y, c)
        == window_value(src, w, h, x + (mx + dx), y + (my + dy), c) by {
        assert(channel(dst, dw, x, y, c) == window_value(mid, mw, mh, x + dx, y + dy, c));
        assert(channel(mid, mw, x + dx, y + dy, c) == window_value(
            src,
            w,
            h,
            x + dx + mx,
            y + dy + my,
            c,
        ));
    }
}

} // verus!
