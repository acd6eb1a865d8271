//! Frames as brightness: halved planes, grids of mean brightness, and scaling by boxes.
//!
//! Integers throughout, and no pixel is left out of any mean.

use vstd::prelude::*;

verus! {

// ---------------------------------------------------------------------------------------------
// Means over rectangles
// ---------------------------------------------------------------------------------------------

/// The sum of `f(x, y)` over `x0 <= x < x1`.
pub open spec fn row_sum(f: spec_fn(int, int) -> int, y: int, x0: int, x1: int) -> int
    decreases x1 - x0,
{
    if x1 <= x0 {
        0
    } else {
        row_sum(f, y, x0, x1 - 1) + f(x1 - 1, y)
    }
}

/// The sum of `f(x, y)` over `x0 <= x < x1` and `y0 <= y < y1`.
pub open spec fn rect_sum(f: spec_fn(int, int) -> int, x0: int, x1: int, y0: int, y1: int) -> int
    decreases y1 - y0,
{
    if y1 <= y0 {
        0
    } else {
        rect_sum(f, x0, x1, y0, y1 - 1) + row_sum(f, y1 - 1, x0, x1)
    }
}

/// The mean of `f(x, y)` over a rectangle, rounded down; 0 over an empty one.
pub open spec fn mean(f: spec_fn(int, int) -> int, x0: int, x1: int, y0: int, y1: int) -> int {
    if x1 <= x0 || y1 <= y0 {
        0
    } else {
        rect_sum(f, x0, x1, y0, y1) / ((x1 - x0) * (y1 - y0))
    }
}

/// Byte `off` of each pixel of `step` bytes, in rows of `w` pixels.
pub open spec fn channel(data: Seq<u8>, w: int, step: int, off: int) -> spec_fn(int, int) -> int {
    |x: int, y: int| data[(y * w + x) * step + off] as int
}

/// The brightness of a colour.
pub open spec fn brightness(r: int, g: int, b: int) -> int {
    (r * 299 + g * 587 + b * 114) / 1000
}

/// The brightness of each pixel of a frame.
pub open spec fn lumas(rgb: Seq<u8>, w: int) -> spec_fn(int, int) -> int {
    |x: int, y: int|
        brightness(
            rgb[(y * w + x) * 3] as int,
            rgb[(y * w + x) * 3 + 1] as int,
            rgb[(y * w + x) * 3 + 2] as int,
        )
}

/// The smaller of two.
pub open spec fn least(a: int, b: int) -> int {
    if a < b {
        a
    } else {
        b
    }
}

/// The larger of two.
pub open spec fn most(a: int, b: int) -> int {
    if a > b {
        a
    } else {
        b
    }
}

proof fn lemma_row_bounds(f: spec_fn(int, int) -> int, y: int, x0: int, x1: int, lo: int, hi: int)
    requires
        x0 <= x1,
        forall|x: int| x0 <= x < x1 ==> lo <= #[trigger] f(x, y) <= hi,
    ensures
        lo * (x1 - x0) <= row_sum(f, y, x0, x1) <= hi * (x1 - x0),
    decreases x1 - x0,
{
    if x0 < x1 {
        lemma_row_bounds(f, y, x0, x1 - 1, lo, hi);
        assert(lo <= f(x1 - 1, y) <= hi);
        assert(lo * (x1 - x0) == lo * (x1 - 1 - x0) + lo) by (nonlinear_arith);
        assert(hi * (x1 - x0) == hi * (x1 - 1 - x0) + hi) by (nonlinear_arith);
    } else {
        assert(lo * (x1 - x0) == 0 && hi * (x1 - x0) == 0) by (nonlinear_arith)
            requires
                x1 == x0,
        ;
    }
}

proof fn lemma_rect_bounds(f: spec_fn(int, int) -> int, x0: int, x1: int, y0: int, y1: int, lo: int, hi: int)
    requires
        x0 <= x1,
        y0 <= y1,
        forall|x: int, y: int| x0 <= x < x1 && y0 <= y < y1 ==> lo <= #[trigger] f(x, y) <= hi,
    ensures
        lo * ((x1 - x0) * (y1 - y0)) <= rect_sum(f, x0, x1, y0, y1) <= hi * ((x1 - x0) * (y1 - y0)),
    decreases y1 - y0,
{
    if y0 < y1 {
        lemma_rect_bounds(f, x0, x1, y0, y1 - 1, lo, hi);
        lemma_row_bounds(f, y1 - 1, x0, x1, lo, hi);
        let n = x1 - x0;
        let m = y1 - y0;
        assert(lo * (n * m) == lo * (n * (m - 1)) + lo * n) by (nonlinear_arith);
        assert(hi * (n * m) == hi * (n * (m - 1)) + hi * n) by (nonlinear_arith);
    } else {
        assert(lo * ((x1 - x0) * (y1 - y0)) == 0 && hi * ((x1 - x0) * (y1 - y0)) == 0) by (nonlinear_arith)
            requires
                y1 == y0,
        ;
    }
}

/// The mean of values within bounds lies within the same bounds.
proof fn lemma_mean_bounds(f: spec_fn(int, int) -> int, x0: int, x1: int, y0: int, y1: int, lo: int, hi: int)
    requires
        x0 < x1,
        y0 < y1,
        forall|x: int, y: int| x0 <= x < x1 && y0 <= y < y1 ==> lo <= #[trigger] f(x, y) <= hi,
    ensures
        lo <= mean(f, x0, x1, y0, y1) <= hi,
{
    lemma_rect_bounds(f, x0, x1, y0, y1, lo, hi);
    let n = (x1 - x0) * (y1 - y0);
    let s = rect_sum(f, x0, x1, y0, y1);
    assert(n > 0) by (nonlinear_arith)
        requires
            x0 < x1,
            y0 < y1,
            n == (x1 - x0) * (y1 - y0),
    ;
    assert(lo <= s / n <= hi) by (nonlinear_arith)
        requires
            n > 0,
            lo * n <= s <= hi * n,
    ;
}

proof fn lemma_row_holds(f: spec_fn(int, int) -> int, y: int, x0: int, x1: int, x: int)
    requires
        x0 <= x < x1,
        forall|k: int| x0 <= k < x1 ==> 0 <= #[trigger] f(k, y),
    ensures
        f(x, y) <= row_sum(f, y, x0, x1),
    decreases x1 - x0,
{
    if x < x1 - 1 {
        lemma_row_holds(f, y, x0, x1 - 1, x);
        assert(f(x1 - 1, y) >= 0);
    } else {
        lemma_row_least(f, y, x0, x1 - 1);
    }
}

proof fn lemma_row_least(f: spec_fn(int, int) -> int, y: int, x0: int, x1: int)
    requires
        forall|k: int| x0 <= k < x1 ==> 0 <= #[trigger] f(k, y),
    ensures
        0 <= row_sum(f, y, x0, x1),
    decreases x1 - x0,
{
    if x0 < x1 {
        lemma_row_least(f, y, x0, x1 - 1);
        assert(f(x1 - 1, y) >= 0);
    }
}

proof fn lemma_rect_least(f: spec_fn(int, int) -> int, x0: int, x1: int, y0: int, y1: int)
    requires
        forall|x: int, y: int| x0 <= x < x1 && y0 <= y < y1 ==> 0 <= #[trigger] f(x, y),
    ensures
        0 <= rect_sum(f, x0, x1, y0, y1),
    decreases y1 - y0,
{
    if y0 < y1 {
        lemma_rect_least(f, x0, x1, y0, y1 - 1);
        lemma_row_least(f, y1 - 1, x0, x1);
    }
}

/// No value of a rectangle exceeds its sum where none is negative.
proof fn lemma_rect_holds(f: spec_fn(int, int) -> int, x0: int, x1: int, y0: int, y1: int, x: int, y: int)
    requires
        x0 <= x < x1,
        y0 <= y < y1,
        forall|i: int, j: int| x0 <= i < x1 && y0 <= j < y1 ==> 0 <= #[trigger] f(i, j),
    ensures
        f(x, y) <= rect_sum(f, x0, x1, y0, y1),
    decreases y1 - y0,
{
    if y < y1 - 1 {
        lemma_rect_holds(f, x0, x1, y0, y1 - 1, x, y);
        lemma_row_least(f, y1 - 1, x0, x1);
    } else {
        lemma_row_holds(f, y, x0, x1, x);
        lemma_rect_least(f, x0, x1, y0, y1 - 1);
    }
}

/// A position within a frame lies within its bytes.
proof fn lemma_pixel(w: int, h: int, x: int, y: int, step: int, off: int)
    requires
        0 <= x < w,
        0 <= y < h,
        0 <= off < step,
    ensures
        0 <= y * w + x < w * h,
        0 <= (y * w + x) * step,
        (y * w + x) * step + off < w * h * step,
        y * w <= w * h,
{
    assert(0 <= y * w + x < w * h) by (nonlinear_arith)
        requires
            0 <= x < w,
            0 <= y < h,
    ;
    assert(y * w <= w * h) by (nonlinear_arith)
        requires
            0 <= x < w,
            0 <= y < h,
    ;
    let p = y * w + x;
    let n = w * h;
    assert(0 <= p * step && p * step + step <= n * step) by (nonlinear_arith)
        requires
            0 <= p < n,
            0 < step,
    ;
}

/// The number of pixels of a rectangle is at most that of the frame it lies in.
proof fn lemma_area(w: int, h: int, x0: int, x1: int, y0: int, y1: int)
    requires
        0 <= x0 <= x1 <= w,
        0 <= y0 <= y1 <= h,
    ensures
        0 <= (x1 - x0) * (y1 - y0) <= w * h,
{
    assert(0 <= (x1 - x0) * (y1 - y0) <= w * h) by (nonlinear_arith)
        requires
            0 <= x0 <= x1 <= w,
            0 <= y0 <= y1 <= h,
    ;
}

/// BT.601 brightness in integers.
pub fn luma(r: u8, g: u8, b: u8) -> (v: u32)
    ensures
        v == brightness(r as int, g as int, b as int),
        v <= 255,
{
    (r as u32 * 299 + g as u32 * 587 + b as u32 * 114) / 1000
}

/// The mean of one channel over a rectangle.
fn channel_mean(
    data: &[u8],
    w: usize,
    Ghost(h): Ghost<int>,
    step: usize,
    off: usize,
    x0: usize,
    x1: usize,
    y0: usize,
    y1: usize,
) -> (r: u8)
    requires
        x0 <= x1 <= w,
        y0 <= y1 <= h,
        off < step,
        w * h * step <= data@.len(),
    ensures
        r == mean(channel(data@, w as int, step as int, off as int), x0 as int, x1 as int, y0 as int, y1 as int),
{
    let ghost f = channel(data@, w as int, step as int, off as int);
    let len: usize = data.len();
    let mut sum: u128 = 0;
    let mut n: u128 = 0;
    let mut y: usize = y0;
    assert((x1 - x0) * (y0 - y0) == 0) by (nonlinear_arith);
    proof {
        lemma_area(w as int, h, x0 as int, x1 as int, y0 as int, y1 as int);
        assert(w * h <= w * h * step) by (nonlinear_arith)
            requires
                step >= 1,
                w * h >= 0,
        ;
    }
    while y < y1
        invariant
            x0 <= x1 <= w,
            y0 <= y <= y1 <= h,
            off < step,
            w * h * step <= len == data@.len(),
            w * h <= w * h * step,
            f == channel(data@, w as int, step as int, off as int),
            n == (x1 - x0) * (y - y0),
            (x1 - x0) * (y1 - y0) <= w * h,
            sum <= 255 * n,
            sum == rect_sum(f, x0 as int, x1 as int, y0 as int, y as int),
        decreases y1 - y,
    {
        let mut x: usize = x0;
        let ghost before = sum;
        proof {
            assert((x1 - x0) * (y - y0) + (x1 - x0) <= (x1 - x0) * (y1 - y0)) by (nonlinear_arith)
                requires
                    y < y1,
                    x0 <= x1,
            ;
        }
        while x < x1
            invariant
                x0 <= x <= x1 <= w,
                y0 <= y < y1 <= h,
                off < step,
                w * h * step <= len == data@.len(),
                w * h <= w * h * step,
                f == channel(data@, w as int, step as int, off as int),
                n == (x1 - x0) * (y - y0) + (x - x0),
                (x1 - x0) * (y - y0) + (x1 - x0) <= w * h,
                sum <= 255 * n,
                sum == before + row_sum(f, y as int, x0 as int, x as int),
            decreases x1 - x,
        {
            proof {
                lemma_pixel(w as int, h, x as int, y as int, step as int, off as int);
            }
            let i: usize = (y * w + x) * step + off;
            assert(f(x as int, y as int) == data@[i as int] as int);
            sum += data[i] as u128;
            n += 1;
            x += 1;
        }
        proof {
            assert((x1 - x0) * (y - y0) + (x1 - x0) == (x1 - x0) * (y + 1 - y0)) by (nonlinear_arith);
        }
        y += 1;
    }
    if n == 0 {
        proof {
            assert(x1 == x0 || y1 == y0) by (nonlinear_arith)
                requires
                    (x1 - x0) * (y1 - y0) == 0,
            ;
        }
        0
    } else {
        proof {
            assert(x0 < x1 && y0 < y1) by (nonlinear_arith)
                requires
                    x0 <= x1,
                    y0 <= y1,
                    (x1 - x0) * (y1 - y0) != 0,
            ;
            assert(sum / n <= 255) by (nonlinear_arith)
                requires
                    sum <= 255 * n,
                    n > 0,
            ;
        }
        (sum / n) as u8
    }
}

/// The mean brightness of a rectangle of a frame.
fn luma_mean(rgb: &[u8], w: usize, Ghost(h): Ghost<int>, x0: usize, x1: usize, y0: usize, y1: usize) -> (r: u8)
    requires
        x0 <= x1 <= w,
        y0 <= y1 <= h,
        w * h * 3 <= rgb@.len(),
    ensures
        r == mean(lumas(rgb@, w as int), x0 as int, x1 as int, y0 as int, y1 as int),
{
    let ghost f = lumas(rgb@, w as int);
    let len: usize = rgb.len();
    let mut sum: u128 = 0;
    let mut n: u128 = 0;
    let mut y: usize = y0;
    assert((x1 - x0) * (y0 - y0) == 0) by (nonlinear_arith);
    proof {
        lemma_area(w as int, h, x0 as int, x1 as int, y0 as int, y1 as int);
    }
    while y < y1
        invariant
            x0 <= x1 <= w,
            y0 <= y <= y1 <= h,
            w * h * 3 <= len == rgb@.len(),
            f == lumas(rgb@, w as int),
            n == (x1 - x0) * (y - y0),
            (x1 - x0) * (y1 - y0) <= w * h,
            sum <= 255 * n,
            sum == rect_sum(f, x0 as int, x1 as int, y0 as int, y as int),
        decreases y1 - y,
    {
        let mut x: usize = x0;
        let ghost before = sum;
        proof {
            assert((x1 - x0) * (y - y0) + (x1 - x0) <= (x1 - x0) * (y1 - y0)) by (nonlinear_arith)
                requires
                    y < y1,
                    x0 <= x1,
            ;
        }
        while x < x1
            invariant
                x0 <= x <= x1 <= w,
                y0 <= y < y1 <= h,
                w * h * 3 <= len == rgb@.len(),
                f == lumas(rgb@, w as int),
                n == (x1 - x0) * (y - y0) + (x - x0),
                (x1 - x0) * (y - y0) + (x1 - x0) <= w * h,
                sum <= 255 * n,
                sum == before + row_sum(f, y as int, x0 as int, x as int),
            decreases x1 - x,
        {
            proof {
                lemma_pixel(w as int, h, x as int, y as int, 3, 2);
            }
            let i: usize = (y * w + x) * 3;
            let v: u32 = luma(rgb[i], rgb[i + 1], rgb[i + 2]);
            assert(f(x as int, y as int) == v as int);
            sum += v as u128;
            n += 1;
            x += 1;
        }
        proof {
            assert((x1 - x0) * (y - y0) + (x1 - x0) == (x1 - x0) * (y + 1 - y0)) by (nonlinear_arith);
        }
        y += 1;
    }
    if n == 0 {
        proof {
            assert(x1 == x0 || y1 == y0) by (nonlinear_arith)
                requires
                    (x1 - x0) * (y1 - y0) == 0,
            ;
        }
        0
    } else {
        proof {
            assert(x0 < x1 && y0 < y1) by (nonlinear_arith)
                requires
                    x0 <= x1,
                    y0 <= y1,
                    (x1 - x0) * (y1 - y0) != 0,
            ;
            assert(sum / n <= 255) by (nonlinear_arith)
                requires
                    sum <= 255 * n,
                    n > 0,
            ;
        }
        (sum / n) as u8
    }
}

// ---------------------------------------------------------------------------------------------
// Halved planes
// ---------------------------------------------------------------------------------------------

/// Half of a side, rounded up.
pub open spec fn half(n: int) -> int {
    (n + 1) / 2
}

/// A point of the halved plane: the mean of a block of two by two pixels, or of what there is of
/// it at the edge.
pub open spec fn half_at(rgb: Seq<u8>, w: int, h: int, x: int, y: int) -> int {
    mean(lumas(rgb, w), 2 * x, least(2 * x + 2, w), 2 * y, least(2 * y + 2, h))
}

/// The halved plane of a frame, row by row.
pub open spec fn half_plane(rgb: Seq<u8>, w: int, h: int) -> Seq<u8> {
    Seq::new(
        (half(w) * half(h)) as nat,
        |i: int| half_at(rgb, w, h, i % half(w), i / half(w)) as u8,
    )
}

/// Where a position in rows of `n` lies.
proof fn lemma_position(n: int, x: int, y: int)
    requires
        0 <= x < n,
        0 <= y,
    ensures
        (y * n + x) / n == y,
        (y * n + x) % n == x,
{
    vstd::arithmetic::div_mod::lemma_fundamental_div_mod_converse(y * n + x, n, y, x);
}

/// A frame as brightness at half the resolution; odd sides are rounded up, so that the last row
/// and column stay.
pub fn gray_half(rgb: &[u8], w: usize, h: usize) -> (r: (Vec<u8>, usize, usize))
    requires
        w * h * 3 <= rgb@.len(),
    ensures
        r.1 == half(w as int),
        r.2 == half(h as int),
        r.0@ == half_plane(rgb@, w as int, h as int),
        r.0@.len() == r.1 * r.2,
{
    let hw: usize = w / 2 + w % 2;
    let hh: usize = h / 2 + h % 2;
    let mut out: Vec<u8> = Vec::new();
    let mut y: usize = 0;
    let ghost all = half_plane(rgb@, w as int, h as int);
    proof {
        assert(0 * hw == 0);
        assert(hw * hh >= 0) by (nonlinear_arith);
    }
    while y < hh
        invariant
            y <= hh,
            hw == half(w as int),
            hh == half(h as int),
            w * h * 3 <= rgb@.len(),
            all == half_plane(rgb@, w as int, h as int),
            out@.len() == y * hw,
            forall|i: int| 0 <= i < out@.len() ==> out@[i] == #[trigger] all[i],
            hw * hh >= 0,
        decreases hh - y,
    {
        let mut x: usize = 0;
        while x < hw
            invariant
                x <= hw,
                y < hh,
                hw == half(w as int),
                hh == half(h as int),
                w * h * 3 <= rgb@.len(),
                all == half_plane(rgb@, w as int, h as int),
                out@.len() == y * hw + x,
                forall|i: int| 0 <= i < out@.len() ==> out@[i] == #[trigger] all[i],
            decreases hw - x,
        {
            let x1: usize = if w - 2 * x < 2 {
                w
            } else {
                2 * x + 2
            };
            let y1: usize = if h - 2 * y < 2 {
                h
            } else {
                2 * y + 2
            };
            let v: u8 = luma_mean(rgb, w, Ghost(h as int), 2 * x, x1, 2 * y, y1);
            proof {
                lemma_position(hw as int, x as int, y as int);
                lemma_pixel(hw as int, hh as int, x as int, y as int, 1, 0);
                assert(all[y * hw + x] == v);
            }
            out.push(v);
            x += 1;
        }
        proof {
            assert((y + 1) * hw == y * hw + hw) by (nonlinear_arith);
        }
        y += 1;
    }
    proof {
        assert(hh * hw == hw * hh) by (nonlinear_arith);
        assert(out@ =~= all);
    }
    (out, hw, hh)
}

// ---------------------------------------------------------------------------------------------
// Grids
// ---------------------------------------------------------------------------------------------

/// Where cell `i` of `n` starts on a side of `len` points.
pub open spec fn cut(i: int, len: int, n: int) -> int {
    i * len / n
}

/// Where cell `i` of `n` ends: it holds at least the point it starts at, but none past the side.
pub open spec fn cut_end(i: int, len: int, n: int) -> int {
    least(most(cut(i + 1, len, n), cut(i, len, n) + 1), len)
}

/// A cell of the grid over a plane.
pub open spec fn cell_at(plane: Seq<u8>, pw: int, ph: int, cols: int, rows: int, cx: int, cy: int) -> int {
    mean(
        channel(plane, pw, 1, 0),
        cut(cx, pw, cols),
        cut_end(cx, pw, cols),
        cut(cy, ph, rows),
        cut_end(cy, ph, rows),
    )
}

/// The grid over a plane, row by row.
pub open spec fn grid_of(plane: Seq<u8>, pw: int, ph: int, cols: int, rows: int) -> Seq<u8> {
    Seq::new(
        (cols * rows) as nat,
        |i: int| cell_at(plane, pw, ph, cols, rows, i % cols, i / cols) as u8,
    )
}

proof fn lemma_cut(i: int, len: int, n: int)
    requires
        0 <= i < n,
        0 <= len,
    ensures
        0 <= cut(i, len, n) <= cut(i + 1, len, n) <= len,
        len > 0 ==> cut(i, len, n) < len,
        len > 0 ==> cut(i, len, n) < cut_end(i, len, n) <= len,
        0 <= i * len <= n * len,
        0 <= (i + 1) * len <= n * len,
{
    assert(0 <= i * len <= (i + 1) * len <= n * len) by (nonlinear_arith)
        requires
            0 <= i < n,
            0 <= len,
    ;
    let a = i * len;
    let b = (i + 1) * len;
    assert(0 <= a / n <= b / n <= len) by (nonlinear_arith)
        requires
            0 <= a <= b <= n * len,
            n > 0,
    ;
    if len > 0 {
        assert(a < n * len) by (nonlinear_arith)
            requires
                a == i * len,
                i < n,
                len > 0,
        ;
        assert(a / n < len) by (nonlinear_arith)
            requires
                0 <= a < n * len,
                n > 0,
        ;
    }
}

/// The end of a cell.
fn cell_end(i: usize, len: usize, n: usize) -> (r: usize)
    requires
        i < n,
        n * len <= usize::MAX,
    ensures
        r == cut_end(i as int, len as int, n as int),
{
    proof {
        lemma_cut(i as int, len as int, n as int);
    }
    let a: usize = i * len / n;
    let b: usize = (i + 1) * len / n;
    if len == 0 {
        return 0;
    }
    let e: usize = if b > a + 1 {
        b
    } else {
        a + 1
    };
    if e < len {
        e
    } else {
        len
    }
}

/// The grid of means over a plane.
pub fn grid_from_plane(plane: &[u8], pw: usize, ph: usize, cols: usize, rows: usize) -> (r: Vec<u8>)
    requires
        pw * ph <= plane@.len(),
        cols * rows <= usize::MAX,
        cols * pw <= usize::MAX,
        rows * ph <= usize::MAX,
    ensures
        r@ == grid_of(plane@, pw as int, ph as int, cols as int, rows as int),
        r@.len() == cols * rows,
{
    let mut out: Vec<u8> = Vec::new();
    let ghost all = grid_of(plane@, pw as int, ph as int, cols as int, rows as int);
    let mut cy: usize = 0;
    assert(0 * cols == 0);
    assert(cols * rows >= 0) by (nonlinear_arith);
    while cy < rows
        invariant
            cy <= rows,
            pw * ph <= plane@.len(),
            cols * pw <= usize::MAX,
            rows * ph <= usize::MAX,
            all == grid_of(plane@, pw as int, ph as int, cols as int, rows as int),
            out@.len() == cy * cols,
            forall|i: int| 0 <= i < out@.len() ==> out@[i] == #[trigger] all[i],
        decreases rows - cy,
    {
        proof {
            lemma_cut(cy as int, ph as int, rows as int);
        }
        let y0: usize = cy * ph / rows;
        let y1: usize = cell_end(cy, ph, rows);
        let mut cx: usize = 0;
        while cx < cols
            invariant
                cx <= cols,
                cy < rows,
                pw * ph <= plane@.len(),
                cols * pw <= usize::MAX,
                y0 == cut(cy as int, ph as int, rows as int),
                y1 == cut_end(cy as int, ph as int, rows as int),
                y0 <= y1 <= ph,
                all == grid_of(plane@, pw as int, ph as int, cols as int, rows as int),
                out@.len() == cy * cols + cx,
                forall|i: int| 0 <= i < out@.len() ==> out@[i] == #[trigger] all[i],
            decreases cols - cx,
        {
            proof {
                lemma_cut(cx as int, pw as int, cols as int);
            }
            let x0: usize = cx * pw / cols;
            let x1: usize = cell_end(cx, pw, cols);
            let v: u8 = channel_mean(plane, pw, Ghost(ph as int), 1, 0, x0, x1, y0, y1);
            proof {
                lemma_position(cols as int, cx as int, cy as int);
                lemma_pixel(cols as int, rows as int, cx as int, cy as int, 1, 0);
                assert(all[cy * cols + cx] == v);
            }
            out.push(v);
            cx += 1;
        }
        proof {
            assert((cy + 1) * cols == cy * cols + cols) by (nonlinear_arith);
        }
        cy += 1;
    }
    proof {
        assert(rows * cols == cols * rows) by (nonlinear_arith);
        assert(out@ =~= all);
    }
    out
}

/// `n` zeros.
fn zeros(n: usize) -> (r: Vec<u8>)
    ensures
        r@ == Seq::new(n as nat, |i: int| 0u8),
{
    let mut v: Vec<u8> = Vec::new();
    while v.len() < n
        invariant
            v@.len() <= n,
            forall|i: int| 0 <= i < v@.len() ==> v@[i] == 0,
        decreases n - v@.len(),
    {
        v.push(0);
    }
    assert(v@ =~= Seq::new(n as nat, |i: int| 0u8));
    v
}

/// A frame as a grid of brightness, by way of the halved plane; zeros where there is nothing to
/// see.
pub fn gray_grid(rgb: &[u8], w: usize, h: usize, cols: usize, rows: usize) -> (r: Vec<u8>)
    requires
        w * h * 3 <= rgb@.len(),
        cols * rows <= usize::MAX,
        cols * half(w as int) <= usize::MAX,
        rows * half(h as int) <= usize::MAX,
    ensures
        if w == 0 || h == 0 || cols == 0 || rows == 0 {
            r@ == Seq::new((cols * most(rows as int, 1)) as nat, |i: int| 0u8)
        } else {
            r@ == grid_of(half_plane(rgb@, w as int, h as int), half(w as int), half(h as int), cols as int, rows as int)
        },
{
    if w == 0 || h == 0 || cols == 0 || rows == 0 {
        let n: usize = if rows == 0 {
            1
        } else {
            rows
        };
        assert(cols * 1 == cols);
        return zeros(cols * n);
    }
    let (plane, pw, ph): (Vec<u8>, usize, usize) = gray_half(rgb, w, h);
    grid_from_plane(plane.as_slice(), pw, ph, cols, rows)
}

// ---------------------------------------------------------------------------------------------
// Scaling
// ---------------------------------------------------------------------------------------------

/// Channel `c` of a pixel of a scaled frame.
pub open spec fn resized_at(src: Seq<u8>, w: int, h: int, tw: int, th: int, tx: int, ty: int, c: int) -> int {
    mean(channel(src, w, 3, c), cut(tx, w, tw), cut_end(tx, w, tw), cut(ty, h, th), cut_end(ty, h, th))
}

/// A frame scaled to `tw` by `th` pixels; the frame itself where there is nothing to scale.
pub open spec fn resized(src: Seq<u8>, w: int, h: int, tw: int, th: int) -> Seq<u8> {
    if tw == 0 || th == 0 || w == 0 || h == 0 || (tw == w && th == h) {
        src
    } else {
        Seq::new(
            (tw * th * 3) as nat,
            |i: int| resized_at(src, w, h, tw, th, (i / 3) % tw, (i / 3) / tw, i % 3) as u8,
        )
    }
}

/// Scales a frame: each pixel is the mean of the box that it stands for.
pub fn box_resize_rgb(src: &[u8], w: usize, h: usize, tw: usize, th: usize) -> (r: Vec<u8>)
    requires
        w * h * 3 <= src@.len(),
        w > 0 && h > 0 ==> tw * th * 3 <= usize::MAX && tw * w <= usize::MAX && th * h <= usize::MAX,
    ensures
        r@ == resized(src@, w as int, h as int, tw as int, th as int),
{
    if tw == 0 || th == 0 || w == 0 || h == 0 || (tw == w && th == h) {
        return copy_bytes(src);
    }
    let mut out: Vec<u8> = Vec::new();
    let ghost all = resized(src@, w as int, h as int, tw as int, th as int);
    let mut ty: usize = 0;
    assert(0 * tw == 0);
    proof {
        assert(tw * th * 3 >= 0) by (nonlinear_arith);
    }
    while ty < th
        invariant
            ty <= th,
            tw > 0,
            w > 0,
            h > 0,
            w * h * 3 <= src@.len(),
            tw * w <= usize::MAX,
            th * h <= usize::MAX,
            !(tw == w && th == h),
            all == resized(src@, w as int, h as int, tw as int, th as int),
            out@.len() == (ty * tw) * 3,
            forall|i: int| 0 <= i < out@.len() ==> out@[i] == #[trigger] all[i],
        decreases th - ty,
    {
        proof {
            lemma_cut(ty as int, h as int, th as int);
        }
        let y0: usize = ty * h / th;
        let y1: usize = cell_end(ty, h, th);
        let mut tx: usize = 0;
        while tx < tw
            invariant
                tx <= tw,
                ty < th,
                w > 0,
                h > 0,
                w * h * 3 <= src@.len(),
                tw * w <= usize::MAX,
                y0 == cut(ty as int, h as int, th as int),
                y1 == cut_end(ty as int, h as int, th as int),
                y0 <= y1 <= h,
                !(tw == w && th == h),
                all == resized(src@, w as int, h as int, tw as int, th as int),
                out@.len() == (ty * tw + tx) * 3,
                forall|i: int| 0 <= i < out@.len() ==> out@[i] == #[trigger] all[i],
            decreases tw - tx,
        {
            proof {
                lemma_cut(tx as int, w as int, tw as int);
            }
            let x0: usize = tx * w / tw;
            let x1: usize = cell_end(tx, w, tw);
            let r: u8 = channel_mean(src, w, Ghost(h as int), 3, 0, x0, x1, y0, y1);
            let g: u8 = channel_mean(src, w, Ghost(h as int), 3, 1, x0, x1, y0, y1);
            let b: u8 = channel_mean(src, w, Ghost(h as int), 3, 2, x0, x1, y0, y1);
            proof {
                let p = ty * tw + tx;
                lemma_position(tw as int, tx as int, ty as int);
                lemma_pixel(tw as int, th as int, tx as int, ty as int, 3, 2);
                assert((p * 3) / 3 == p && (p * 3 + 1) / 3 == p && (p * 3 + 2) / 3 == p);
                assert(all[p * 3] == r);
                assert(all[p * 3 + 1] == g);
                assert(all[p * 3 + 2] == b);
            }
            out.push(r);
            out.push(g);
            out.push(b);
            tx += 1;
        }
        proof {
            assert((ty + 1) * tw == ty * tw + tw) by (nonlinear_arith);
        }
        ty += 1;
    }
    proof {
        assert(th * tw == tw * th) by (nonlinear_arith);
        assert(out@ =~= all);
    }
    out
}

/// A copy.
pub fn copy_bytes(src: &[u8]) -> (r: Vec<u8>)
    ensures
        r@ == src@,
{
    let mut v: Vec<u8> = Vec::new();
    let mut i: usize = 0;
    while i < src.len()
        invariant
            i <= src@.len(),
            v@ == src@.take(i as int),
        decreases src@.len() - i,
    {
        v.push(src[i]);
        i += 1;
        assert(v@ =~= src@.take(i as int));
    }
    assert(v@ =~= src@);
    v
}

/// Whether the long edge of a frame is longer than `limit`, which is 0 where any length will do.
pub open spec fn too_large(w: int, h: int, limit: int) -> bool {
    0 < w && 0 < limit < most(w, h)
}

/// How long a side of a frame is once its long edge is `limit`.
pub open spec fn fitted_side(side: int, long: int, limit: int) -> int {
    most(side * limit / long, 1)
}

/// Width and height of a frame once its long edge is no longer than `limit`.
pub open spec fn fitted_size(w: int, h: int, limit: int) -> (int, int) {
    if too_large(w, h, limit) {
        (fitted_side(w, most(w, h), limit), fitted_side(h, most(w, h), limit))
    } else {
        (w, h)
    }
}

/// Whether a frame can be scaled down within the range of machine words.
pub open spec fn fits_words(w: int, h: int, limit: int) -> bool {
    too_large(w, h, limit) ==> {
        &&& least(w, h) * limit <= u64::MAX
        &&& fitted_size(w, h, limit).0 * w <= usize::MAX
        &&& fitted_size(w, h, limit).1 * h <= usize::MAX
    }
}

/// A side is scaled down in proportion, and never vanishes; the long edge becomes the limit.
proof fn lemma_fitted_side(side: int, long: int, limit: int)
    requires
        0 <= side <= long,
        0 < limit < long,
    ensures
        1 <= fitted_side(side, long, limit),
        fitted_side(side, long, limit) <= most(side, 1),
        side * limit >= 0,
        side == long ==> fitted_side(side, long, limit) == limit,
{
    let n = side * limit;
    assert(0 <= n / long <= side) by (nonlinear_arith)
        requires
            n == side * limit,
            0 <= side,
            0 < limit < long,
    ;
    assert(n >= 0) by (nonlinear_arith)
        requires
            n == side * limit,
            0 <= side,
            0 < limit,
    ;
    if side == long {
        assert(n / long == limit) by (nonlinear_arith)
            requires
                n == long * limit,
                0 < long,
        ;
    }
}

/// The short side of a frame whose long edge becomes `limit`.
fn fit_side(side: usize, long: usize, limit: usize) -> (r: usize)
    requires
        side <= long,
        0 < limit < long,
        side * limit <= u64::MAX,
    ensures
        r == fitted_side(side as int, long as int, limit as int),
{
    proof {
        lemma_fitted_side(side as int, long as int, limit as int);
    }
    let n: usize = (side as u64 * limit as u64 / long as u64) as usize;
    if n < 1 {
        1
    } else {
        n
    }
}

/// Scales a frame down until its long edge is no longer than `max_width`, keeping its proportions;
/// 0 means any length.
pub fn fit_width(rgb: Vec<u8>, w: usize, h: usize, max_width: usize) -> (r: (Vec<u8>, usize, usize))
    requires
        too_large(w as int, h as int, max_width as int) ==> w * h * 3 <= rgb@.len(),
        fits_words(w as int, h as int, max_width as int),
    ensures
        (r.1 as int, r.2 as int) == fitted_size(w as int, h as int, max_width as int),
        if too_large(w as int, h as int, max_width as int) {
            r.0@ == resized(rgb@, w as int, h as int, r.1 as int, r.2 as int)
        } else {
            r.0 == rgb
        },
{
    if max_width == 0 || w == 0 || (max_width >= w && max_width >= h) {
        return (rgb, w, h);
    }
    let long: usize = if w >= h {
        w
    } else {
        h
    };
    proof {
        lemma_fitted_side(w as int, long as int, max_width as int);
        lemma_fitted_side(h as int, long as int, max_width as int);
    }
    let (nw, nh): (usize, usize) = if w >= h {
        (max_width, fit_side(h, w, max_width))
    } else {
        (fit_side(w, h, max_width), max_width)
    };
    let len: usize = rgb.len();
    proof {
        assert(w * h * 3 <= len);
        if h > 0 {
            assert(nw * nh * 3 <= w * h * 3) by (nonlinear_arith)
                requires
                    0 <= nw <= w,
                    0 <= nh <= h,
            ;
        }
    }
    (box_resize_rgb(rgb.as_slice(), w, h, nw, nh), nw, nh)
}

// ---------------------------------------------------------------------------------------------
// What holds of every frame
// ---------------------------------------------------------------------------------------------

/// Every pixel counts: the point of the halved plane that a pixel belongs to is at least a quarter
/// as bright as the pixel, whatever lies around it. So no pixel is passed over.
pub proof fn every_pixel_counts(rgb: Seq<u8>, w: int, h: int, x: int, y: int)
    requires
        0 <= x < w,
        0 <= y < h,
        w * h * 3 <= rgb.len(),
    ensures
        0 <= x / 2 < half(w),
        0 <= y / 2 < half(h),
        half_at(rgb, w, h, x / 2, y / 2) >= lumas(rgb, w)(x, y) / 4,
        half_plane(rgb, w, h)[(y / 2) * half(w) + x / 2] == half_at(rgb, w, h, x / 2, y / 2),
{
    let f = lumas(rgb, w);
    let x0 = 2 * (x / 2);
    let y0 = 2 * (y / 2);
    let x1 = least(x0 + 2, w);
    let y1 = least(y0 + 2, h);
    assert forall|i: int, j: int| x0 <= i < x1 && y0 <= j < y1 implies 0 <= #[trigger] f(i, j) <= 255 by {
        lemma_pixel(w, h, i, j, 3, 2);
    }
    lemma_rect_holds(f, x0, x1, y0, y1, x, y);
    lemma_mean_bounds(f, x0, x1, y0, y1, 0, 255);
    let n = (x1 - x0) * (y1 - y0);
    let s = rect_sum(f, x0, x1, y0, y1);
    assert(1 <= n <= 4) by (nonlinear_arith)
        requires
            1 <= x1 - x0 <= 2,
            1 <= y1 - y0 <= 2,
            n == (x1 - x0) * (y1 - y0),
    ;
    assert(s / n >= s / 4) by (nonlinear_arith)
        requires
            1 <= n <= 4,
            s >= 0,
    ;
    lemma_position(half(w), x / 2, y / 2);
    lemma_pixel(half(w), half(h), x / 2, y / 2, 1, 0);
}

/// The cells of a grid leave no point of a side out.
pub proof fn cells_cover(len: int, n: int, p: int) -> (i: int)
    requires
        0 <= p < len,
        0 < n,
    ensures
        0 <= i < n,
        cut(i, len, n) <= p < cut_end(i, len, n),
{
    // The last cell that starts at or before `p`.
    let i = ((p + 1) * n - 1) / len;
    assert(0 <= i < n && i * len <= (p + 1) * n - 1 < (i + 1) * len) by (nonlinear_arith)
        requires
            0 <= p < len,
            0 < n,
            i == ((p + 1) * n - 1) / len,
    ;
    let a = i * len;
    let b = (i + 1) * len;
    assert(a / n <= p) by (nonlinear_arith)
        requires
            a <= (p + 1) * n - 1,
            n > 0,
    ;
    assert(b / n >= p + 1) by (nonlinear_arith)
        requires
            b >= (p + 1) * n,
            n > 0,
    ;
    i
}

/// A frame of one colour.
pub open spec fn is_plain(rgb: Seq<u8>, w: int, h: int, r: u8, g: u8, b: u8) -> bool {
    &&& w * h * 3 <= rgb.len()
    &&& forall|x: int, y: int|
        #![trigger lumas(rgb, w)(x, y)]
        0 <= x < w && 0 <= y < h ==> rgb[(y * w + x) * 3] == r && rgb[(y * w + x) * 3 + 1] == g && rgb[(y * w + x) * 3
            + 2] == b
}

proof fn lemma_plain_half(rgb: Seq<u8>, w: int, h: int, r: u8, g: u8, b: u8, x: int, y: int)
    requires
        is_plain(rgb, w, h, r, g, b),
        0 <= x < half(w),
        0 <= y < half(h),
    ensures
        half_at(rgb, w, h, x, y) == brightness(r as int, g as int, b as int),
{
    let f = lumas(rgb, w);
    let v = brightness(r as int, g as int, b as int);
    let x1 = least(2 * x + 2, w);
    let y1 = least(2 * y + 2, h);
    assert forall|i: int, j: int| 2 * x <= i < x1 && 2 * y <= j < y1 implies v <= #[trigger] f(i, j) <= v by {
        lemma_pixel(w, h, i, j, 3, 2);
    }
    lemma_mean_bounds(f, 2 * x, x1, 2 * y, y1, v, v);
}

/// A frame of one colour makes a grid of one brightness, that of the colour.
pub proof fn plain_frames_make_plain_grids(rgb: Seq<u8>, w: int, h: int, r: u8, g: u8, b: u8, cols: int, rows: int, i: int)
    requires
        is_plain(rgb, w, h, r, g, b),
        w > 0,
        h > 0,
        cols > 0,
        rows > 0,
        0 <= i < cols * rows,
    ensures
        grid_of(half_plane(rgb, w, h), half(w), half(h), cols, rows)[i] == brightness(r as int, g as int, b as int),
{
    let plane = half_plane(rgb, w, h);
    let pw = half(w);
    let ph = half(h);
    let v = brightness(r as int, g as int, b as int);
    let cx = i % cols;
    let cy = i / cols;
    assert(0 <= cx < cols && 0 <= cy < rows) by (nonlinear_arith)
        requires
            0 <= i < cols * rows,
            cols > 0,
            cx == i % cols,
            cy == i / cols,
    ;
    lemma_cut(cx, pw, cols);
    lemma_cut(cy, ph, rows);
    let f = channel(plane, pw, 1, 0);
    assert forall|x: int, y: int|
        cut(cx, pw, cols) <= x < cut_end(cx, pw, cols) && cut(cy, ph, rows) <= y < cut_end(cy, ph, rows) implies v
        <= #[trigger] f(x, y) <= v by {
        lemma_plain_half(rgb, w, h, r, g, b, x, y);
        lemma_position(pw, x, y);
        lemma_pixel(pw, ph, x, y, 1, 0);
        assert((y * pw + x) * 1 + 0 == y * pw + x);
    }
    lemma_mean_bounds(f, cut(cx, pw, cols), cut_end(cx, pw, cols), cut(cy, ph, rows), cut_end(cy, ph, rows), v, v);
}

/// A channel that is the same all over a frame is the same all over the scaled frame.
pub proof fn plain_channels_stay_plain(src: Seq<u8>, w: int, h: int, tw: int, th: int, c: int, v: u8, tx: int, ty: int)
    requires
        w * h * 3 <= src.len(),
        w > 0,
        h > 0,
        0 <= c < 3,
        0 <= tx < tw,
        0 <= ty < th,
        !(tw == w && th == h),
        forall|x: int, y: int| 0 <= x < w && 0 <= y < h ==> #[trigger] channel(src, w, 3, c)(x, y) == v,
    ensures
        resized(src, w, h, tw, th)[(ty * tw + tx) * 3 + c] == v,
{
    lemma_cut(tx, w, tw);
    lemma_cut(ty, h, th);
    let f = channel(src, w, 3, c);
    lemma_mean_bounds(f, cut(tx, w, tw), cut_end(tx, w, tw), cut(ty, h, th), cut_end(ty, h, th), v as int, v as int);
    lemma_position(tw, tx, ty);
    lemma_pixel(tw, th, tx, ty, 3, c);
    let p = ty * tw + tx;
    assert((p * 3 + c) / 3 == p && (p * 3 + c) % 3 == c);
}

/// Brightness weighs the colours: red by 299, green by 587 and blue by 114 thousandths, rounded down.
/// So gray is as bright as it is, nothing is brighter than white, and no colour darkens a pixel.
pub proof fn colours_have_their_weights(r: int, g: int, b: int, more: int)
    requires
        0 <= r <= 255,
        0 <= g <= 255,
        0 <= b <= 255,
        0 <= more,
    ensures
        1000 * brightness(r, g, b) <= 299 * r + 587 * g + 114 * b < 1000 * brightness(r, g, b) + 1000,
        brightness(r, r, r) == r,
        0 <= brightness(r, g, b) <= 255,
        brightness(r + more, g, b) >= brightness(r, g, b),
        brightness(r, g + more, b) >= brightness(r, g, b),
        brightness(r, g, b + more) >= brightness(r, g, b),
{
}

/// A frame within the limit keeps its size; of one beyond it the long edge gets as long as the limit,
/// and the other one in proportion, but not less than one pixel.
pub proof fn frames_are_fitted_in_proportion(w: int, h: int, limit: int)
    requires
        0 < w,
        0 < h,
        0 <= limit,
    ensures
        ({
            let (a, b) = fitted_size(w, h, limit);
            let long = most(w, h);
            &&& limit == 0 || long <= limit ==> a == w && b == h
            &&& limit > 0 && long > limit ==> {
                &&& most(a, b) == limit
                &&& w >= h ==> a == limit && (b == 1 || (b * w <= h * limit < (b + 1) * w))
                &&& h >= w ==> b == limit && (a == 1 || (a * h <= w * limit < (a + 1) * h))
            }
        }),
{
    if 0 < limit < most(w, h) {
        let long = most(w, h);
        lemma_fitted_side(w, long, limit);
        lemma_fitted_side(h, long, limit);
        let p = w * limit;
        let q = h * limit;
        assert(p / long * long <= p < (p / long + 1) * long) by (nonlinear_arith)
            requires
                long > 0,
        ;
        assert(q / long * long <= q < (q / long + 1) * long) by (nonlinear_arith)
            requires
                long > 0,
        ;
        if w >= h {
            assert(q / long <= limit) by (nonlinear_arith)
                requires
                    q == h * limit,
                    h <= long,
                    long > 0,
                    limit > 0,
            ;
        }
        if h >= w {
            assert(p / long <= limit) by (nonlinear_arith)
                requires
                    p == w * limit,
                    w <= long,
                    long > 0,
                    limit > 0,
            ;
        }
    }
}

/// The cells of a grid do not overlap where there are points enough for all of them: a cell ends where
/// the next one starts, the first one starts with the side and the last one ends with it.
pub proof fn cells_do_not_overlap(len: int, n: int, i: int)
    requires
        0 < n <= len,
        0 <= i < n,
    ensures
        cut(0, len, n) == 0,
        cut_end(i, len, n) == cut(i + 1, len, n),
        cut(i, len, n) < cut(i + 1, len, n),
        cut(n, len, n) == len,
{
    let a = i * len;
    let b = (i + 1) * len;
    assert(b == a + len) by (nonlinear_arith)
        requires
            a == i * len,
            b == (i + 1) * len,
    ;
    assert(a / n + 1 <= b / n) by (nonlinear_arith)
        requires
            b == a + len,
            0 < n <= len,
    ;
    lemma_cut(i, len, n);
    assert(n * len / n == len) by (nonlinear_arith)
        requires
            n > 0,
    ;
    assert(0 * len == 0) by (nonlinear_arith);
}

/// Every point of a plane counts in the grid over it: it lies in a cell, and that cell is at least as
/// bright as the share of the point in it.
pub proof fn every_point_counts(plane: Seq<u8>, pw: int, ph: int, cols: int, rows: int, x: int, y: int) -> (c: (int, int))
    requires
        0 <= x < pw,
        0 <= y < ph,
        pw * ph <= plane.len(),
        0 < cols,
        0 < rows,
    ensures
        0 <= c.0 < cols,
        0 <= c.1 < rows,
        cut(c.0, pw, cols) <= x < cut_end(c.0, pw, cols),
        cut(c.1, ph, rows) <= y < cut_end(c.1, ph, rows),
        0 <= c.1 * cols + c.0 < cols * rows,
        grid_of(plane, pw, ph, cols, rows)[c.1 * cols + c.0] >= plane[y * pw + x] as int / ((cut_end(c.0, pw, cols) - cut(
            c.0,
            pw,
            cols,
        )) * (cut_end(c.1, ph, rows) - cut(c.1, ph, rows))),
{
    let cx = cells_cover(pw, cols, x);
    let cy = cells_cover(ph, rows, y);
    let x0 = cut(cx, pw, cols);
    let x1 = cut_end(cx, pw, cols);
    let y0 = cut(cy, ph, rows);
    let y1 = cut_end(cy, ph, rows);
    lemma_cut(cx, pw, cols);
    lemma_cut(cy, ph, rows);
    let f = channel(plane, pw, 1, 0);
    assert forall|i: int, j: int| x0 <= i < x1 && y0 <= j < y1 implies 0 <= #[trigger] f(i, j) <= 255 by {
        lemma_pixel(pw, ph, i, j, 1, 0);
    }
    lemma_rect_holds(f, x0, x1, y0, y1, x, y);
    lemma_mean_bounds(f, x0, x1, y0, y1, 0, 255);
    let n = (x1 - x0) * (y1 - y0);
    let s = rect_sum(f, x0, x1, y0, y1);
    let v = plane[y * pw + x] as int;
    assert((y * pw + x) * 1 + 0 == y * pw + x);
    assert(f(x, y) == v);
    assert(n > 0) by (nonlinear_arith)
        requires
            x0 < x1,
            y0 < y1,
            n == (x1 - x0) * (y1 - y0),
    ;
    assert(v / n <= s / n) by (nonlinear_arith)
        requires
            v <= s,
            n > 0,
    ;
    lemma_position(cols, cx, cy);
    lemma_pixel(cols, rows, cx, cy, 1, 0);
    (cx, cy)
}

/// No cell of a grid is brighter than the brightest point of its plane, nor darker than the darkest.
pub proof fn cells_stay_between(plane: Seq<u8>, pw: int, ph: int, cols: int, rows: int, i: int, lo: int, hi: int)
    requires
        0 < pw,
        0 < ph,
        pw * ph <= plane.len(),
        0 < cols,
        0 < rows,
        0 <= i < cols * rows,
        0 <= lo,
        hi <= 255,
        forall|k: int| 0 <= k < pw * ph ==> lo <= #[trigger] plane[k] <= hi,
    ensures
        lo <= grid_of(plane, pw, ph, cols, rows)[i] <= hi,
{
    let cx = i % cols;
    let cy = i / cols;
    assert(0 <= cx < cols && 0 <= cy < rows) by (nonlinear_arith)
        requires
            0 <= i < cols * rows,
            cols > 0,
            cx == i % cols,
            cy == i / cols,
    ;
    lemma_cut(cx, pw, cols);
    lemma_cut(cy, ph, rows);
    let f = channel(plane, pw, 1, 0);
    assert forall|x: int, y: int|
        cut(cx, pw, cols) <= x < cut_end(cx, pw, cols) && cut(cy, ph, rows) <= y < cut_end(cy, ph, rows) implies lo
        <= #[trigger] f(x, y) <= hi by {
        lemma_pixel(pw, ph, x, y, 1, 0);
        assert((y * pw + x) * 1 + 0 == y * pw + x);
        assert(lo <= plane[y * pw + x] <= hi);
    }
    lemma_mean_bounds(f, cut(cx, pw, cols), cut_end(cx, pw, cols), cut(cy, ph, rows), cut_end(cy, ph, rows), lo, hi);
}

} // verus!
