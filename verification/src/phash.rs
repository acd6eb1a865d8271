//! Difference hashes of brightness grids, their distance, and where two grids differ.

use vstd::prelude::*;
use crate::gray::least;
use crate::gray::most;

verus! {

/// Pairs that are compared in each row.
pub const HASH_COLS: usize = 8;

/// Rows of a hash.
pub const HASH_ROWS: usize = 8;

/// Columns of the grid that is hashed: one more than pairs.
pub const GRID_COLS: usize = HASH_COLS + 1;

/// Rows of the grid that is hashed.
pub const GRID_ROWS: usize = HASH_ROWS;

/// The largest distance of two hashes.
pub const MAX_DIST: u32 = 64;

/// Bit `i` of a word.
pub open spec fn bit(v: u64, i: int) -> bool {
    (v >> (i as u64)) & 1 == 1
}

/// A cell of a grid, 0 past its end.
pub open spec fn cell(grid: Seq<u8>, i: int) -> int {
    if 0 <= i < grid.len() {
        grid[i] as int
    } else {
        0
    }
}

/// Whether pair `i` of a grid rises from left to right.
pub open spec fn rises(grid: Seq<u8>, i: int) -> bool {
    let at = (i / 8) * 9 + i % 8;
    cell(grid, at) < cell(grid, at + 1)
}

/// A cell of a grid, 0 past its end.
fn get(grid: &[u8], i: usize) -> (r: u8)
    ensures
        r == cell(grid@, i as int),
{
    if i < grid.len() {
        grid[i]
    } else {
        0
    }
}

proof fn lemma_set_bit(v: u64, i: u64, j: u64)
    by (bit_vector)
    requires
        i < 64,
        j < 64,
    ensures
        ((v | (1u64 << i)) >> j) & 1 == 1 <==> (j == i || (v >> j) & 1 == 1),
{
}

proof fn lemma_no_bit(j: u64)
    by (bit_vector)
    requires
        j < 64,
    ensures
        (0u64 >> j) & 1 != 1,
{
}

/// The hash of a grid: bit `i` says whether pair `i` rises. Cells that are missing count as 0.
pub fn dhash(grid: &[u8]) -> (r: u64)
    ensures
        forall|i: int| 0 <= i < 64 ==> #[trigger] bit(r, i) == rises(grid@, i),
{
    let mut bits: u64 = 0;
    let mut i: usize = 0;
    assert forall|j: int| 0 <= j < 64 implies !#[trigger] bit(0, j) by {
        lemma_no_bit(j as u64);
    }
    while i < 64
        invariant
            i <= 64,
            forall|j: int| 0 <= j < 64 ==> #[trigger] bit(bits, j) == (j < i && rises(grid@, j)),
        decreases 64 - i,
    {
        let at: usize = (i / HASH_COLS) * GRID_COLS + i % HASH_COLS;
        let ghost before = bits;
        if get(grid, at) < get(grid, at + 1) {
            bits = bits | (1u64 << (i as u64));
            proof {
                assert forall|j: int| 0 <= j < 64 implies #[trigger] bit(bits, j) == (j == i || bit(before, j)) by {
                    lemma_set_bit(before, i as u64, j as u64);
                }
            }
        }
        i += 1;
    }
    bits
}

/// How many of the first `n` bits differ.
pub open spec fn differing(a: u64, b: u64, n: int) -> int
    decreases n,
{
    if n <= 0 {
        0
    } else {
        differing(a, b, n - 1) + (if bit(a, n - 1) != bit(b, n - 1) {
            1int
        } else {
            0
        })
    }
}

/// The distance of two hashes: in how many bits they differ.
pub open spec fn distance(a: u64, b: u64) -> int {
    differing(a, b, 64)
}

/// In how many bits two hashes differ.
pub fn hamming(a: u64, b: u64) -> (r: u32)
    ensures
        r == distance(a, b),
        r <= MAX_DIST,
{
    let mut n: u32 = 0;
    let mut i: u64 = 0;
    while i < 64
        invariant
            i <= 64,
            n == differing(a, b, i as int),
            n <= i,
        decreases 64 - i,
    {
        if (a >> i) & 1 != (b >> i) & 1 {
            proof {
                assert((a >> i) & 1 == 0 || (a >> i) & 1 == 1) by (bit_vector);
                assert((b >> i) & 1 == 0 || (b >> i) & 1 == 1) by (bit_vector);
            }
            n += 1;
        }
        i += 1;
    }
    n
}

proof fn lemma_differing(a: u64, b: u64, c: u64, n: int)
    requires
        0 <= n,
    ensures
        0 <= differing(a, b, n) <= n,
        differing(a, b, n) == differing(b, a, n),
        differing(a, c, n) <= differing(a, b, n) + differing(b, c, n),
    decreases n,
{
    if n > 0 {
        lemma_differing(a, b, c, n - 1);
    }
}

proof fn lemma_same_bits(a: u64, b: u64, n: u64)
    requires
        n <= 64,
        differing(a, b, n as int) == 0,
    ensures
        n < 64 ==> (a ^ b) & (((1u64 << n) - 1) as u64) == 0,
        n == 64 ==> a == b,
    decreases n,
{
    if n == 0 {
        assert((a ^ b) & (((1u64 << 0u64) - 1) as u64) == 0) by (bit_vector);
    } else {
        let m: u64 = (n - 1) as u64;
        lemma_differing(a, b, b, m as int);
        lemma_same_bits(a, b, m);
        assert(bit(a, m as int) == bit(b, m as int));
        assert((a >> m) & 1 == 0 || (a >> m) & 1 == 1) by (bit_vector);
        assert((b >> m) & 1 == 0 || (b >> m) & 1 == 1) by (bit_vector);
        if n < 64 {
            assert((a ^ b) & (((1u64 << n) - 1) as u64) == 0) by (bit_vector)
                requires
                    n < 64,
                    n == m + 1,
                    (a ^ b) & (((1u64 << m) - 1) as u64) == 0,
                    (a >> m) & 1 == (b >> m) & 1,
            ;
        } else {
            assert(a == b) by (bit_vector)
                requires
                    m == 63,
                    (a ^ b) & (((1u64 << m) - 1) as u64) == 0,
                    (a >> m) & 1 == (b >> m) & 1,
            ;
        }
    }
}

/// Distances behave as distances do: two hashes are 0 apart exactly where they are equal, as far
/// apart one way as the other, never more than their number of bits, and no detour is shorter.
pub proof fn distances_are_distances(a: u64, b: u64, c: u64)
    ensures
        distance(a, b) == 0 <==> a == b,
        distance(a, b) == distance(b, a),
        0 <= distance(a, b) <= MAX_DIST,
        distance(a, c) <= distance(a, b) + distance(b, c),
{
    lemma_differing(a, b, c, 64);
    if distance(a, b) == 0 {
        lemma_same_bits(a, b, 64);
    }
    if a == b {
        lemma_differing_self(a, 64);
    }
}

proof fn lemma_differing_self(a: u64, n: int)
    ensures
        differing(a, a, n) == 0,
    decreases n,
{
    if n > 0 {
        lemma_differing_self(a, n - 1);
    }
}

/// Grids that rise at the same pairs have the same hash, and only those.
pub proof fn hashes_tell_rises(p: Seq<u8>, q: Seq<u8>, a: u64, b: u64)
    requires
        forall|i: int| 0 <= i < 64 ==> #[trigger] bit(a, i) == rises(p, i),
        forall|i: int| 0 <= i < 64 ==> #[trigger] bit(b, i) == rises(q, i),
    ensures
        a == b <==> forall|i: int| 0 <= i < 64 ==> #[trigger] rises(p, i) == rises(q, i),
{
    if forall|i: int| 0 <= i < 64 ==> #[trigger] rises(p, i) == rises(q, i) {
        assert forall|i: int| 0 <= i < 64 implies #[trigger] bit(a, i) == bit(b, i) by {
            assert(rises(p, i) == rises(q, i));
        }
        lemma_bits_agree(a, b, 64);
        lemma_same_bits(a, b, 64);
    }
    if a == b {
        assert forall|i: int| 0 <= i < 64 implies #[trigger] rises(p, i) == rises(q, i) by {
            assert(bit(a, i) == bit(b, i));
        }
    }
}

proof fn lemma_bits_agree(a: u64, b: u64, n: int)
    requires
        0 <= n <= 64,
        forall|i: int| 0 <= i < 64 ==> #[trigger] bit(a, i) == bit(b, i),
    ensures
        differing(a, b, n) == 0,
    decreases n,
{
    if n > 0 {
        lemma_bits_agree(a, b, n - 1);
        assert(bit(a, n - 1) == bit(b, n - 1));
    }
}

/// How far two values are apart.
pub open spec fn apart(a: int, b: int) -> int {
    if a < b {
        b - a
    } else {
        a - b
    }
}

/// How far two values are apart.
fn abs_diff(a: u8, b: u8) -> (r: u8)
    ensures
        r == apart(a as int, b as int),
{
    if a < b {
        b - a
    } else {
        a - b
    }
}

/// The sum of the differences of the first `n` cells.
pub open spec fn apart_sum(p: Seq<u8>, q: Seq<u8>, n: int) -> int
    decreases n,
{
    if n <= 0 {
        0
    } else {
        apart_sum(p, q, n - 1) + apart(p[n - 1] as int, q[n - 1] as int)
    }
}

/// The mean difference of two grids, over the cells of the longer one.
pub open spec fn mean_apart(p: Seq<u8>, q: Seq<u8>) -> int {
    if p.len() == 0 || q.len() == 0 {
        0
    } else {
        apart_sum(p, q, least(p.len() as int, q.len() as int)) / most(p.len() as int, q.len() as int)
    }
}

/// The mean difference of two grids.
pub fn mean_abs_diff(prev: &[u8], cur: &[u8]) -> (r: u32)
    ensures
        r == mean_apart(prev@, cur@),
        r <= 255,
{
    let n: usize = if prev.len() < cur.len() {
        prev.len()
    } else {
        cur.len()
    };
    if n == 0 {
        return 0;
    }
    let mut sum: u128 = 0;
    let mut i: usize = 0;
    while i < n
        invariant
            i <= n,
            n <= prev@.len(),
            n <= cur@.len(),
            sum == apart_sum(prev@, cur@, i as int),
            sum <= 255 * i,
        decreases n - i,
    {
        sum += abs_diff(prev[i], cur[i]) as u128;
        i += 1;
    }
    let den: usize = if prev.len() > cur.len() {
        prev.len()
    } else {
        cur.len()
    };
    proof {
        assert(sum / (den as u128) <= 255) by (nonlinear_arith)
            requires
                sum <= 255 * n,
                n <= den,
                den > 0,
        ;
    }
    (sum / den as u128) as u32
}

proof fn lemma_apart_sum(p: Seq<u8>, q: Seq<u8>, n: int)
    ensures
        apart_sum(p, q, n) == apart_sum(q, p, n),
        apart_sum(p, p, n) == 0,
    decreases n,
{
    if n > 0 {
        lemma_apart_sum(p, q, n - 1);
    }
}

/// A grid does not differ from itself, and two grids differ as much one way as the other.
pub proof fn differences_are_mutual(p: Seq<u8>, q: Seq<u8>)
    ensures
        mean_apart(p, p) == 0,
        mean_apart(p, q) == mean_apart(q, p),
{
    lemma_apart_sum(p, q, least(p.len() as int, q.len() as int));
    lemma_apart_sum(p, p, p.len() as int);
}

/// Whether a cell of two grids differs by more than a tolerance. A cell that is missing counts as 0.
pub open spec fn changed(p: Seq<u8>, q: Seq<u8>, cols: int, tol: int, x: int, y: int) -> bool {
    apart(cell(p, y * cols + x), cell(q, y * cols + x)) > tol
}

/// Whether any cell of a column changed.
pub open spec fn column_changed(p: Seq<u8>, q: Seq<u8>, cols: int, rows: int, tol: int, x: int) -> bool {
    exists|y: int| 0 <= y < rows && #[trigger] changed(p, q, cols, tol, x, y)
}

/// Whether any cell of a row changed.
pub open spec fn row_changed(p: Seq<u8>, q: Seq<u8>, cols: int, tol: int, y: int) -> bool {
    exists|x: int| 0 <= x < cols && #[trigger] changed(p, q, cols, tol, x, y)
}

/// Whether `(x0, y0, x1, y1)` is the smallest rectangle around the changed cells: none lies
/// outside, and each side has one.
pub open spec fn is_bbox(b: (usize, usize, usize, usize), p: Seq<u8>, q: Seq<u8>, cols: int, rows: int, tol: int) -> bool {
    let (x0, y0, x1, y1) = b;
    &&& x0 < x1 <= cols
    &&& y0 < y1 <= rows
    &&& forall|x: int, y: int|
        0 <= x < cols && 0 <= y < rows && #[trigger] changed(p, q, cols, tol, x, y) ==> x0 <= x < x1 && y0 <= y < y1
    &&& column_changed(p, q, cols, rows, tol, x0 as int)
    &&& column_changed(p, q, cols, rows, tol, x1 - 1)
    &&& row_changed(p, q, cols, tol, y0 as int)
    &&& row_changed(p, q, cols, tol, y1 - 1)
}

/// Whether cell `(x, y)` comes before cell `(ex, ey)` row by row.
spec fn before(x: int, y: int, ex: int, ey: int) -> bool {
    y < ey || (y == ey && x < ex)
}

/// What is known of the rectangle once all cells before `(ex, ey)` were looked at.
spec fn so_far(
    x0: int,
    y0: int,
    x1: int,
    y1: int,
    p: Seq<u8>,
    q: Seq<u8>,
    cols: int,
    rows: int,
    tol: int,
    ex: int,
    ey: int,
) -> bool {
    &&& forall|x: int, y: int|
        0 <= x < cols && 0 <= y < rows && before(x, y, ex, ey) && #[trigger] changed(p, q, cols, tol, x, y) ==> x0 <= x < x1
            && y0 <= y < y1
    &&& if x1 == 0 {
        x0 == cols && y0 == rows && y1 == 0
    } else {
        &&& 0 <= x0 < x1 <= cols
        &&& 0 <= y0 < y1 <= rows
        &&& column_changed(p, q, cols, rows, tol, x0)
        &&& column_changed(p, q, cols, rows, tol, x1 - 1)
        &&& row_changed(p, q, cols, tol, y0)
        &&& row_changed(p, q, cols, tol, y1 - 1)
    }
}

/// The smallest rectangle around the cells that differ by more than a tolerance, in cells; none
/// where no cell does.
pub fn changed_bbox(prev: &[u8], cur: &[u8], cols: usize, rows: usize, tol: u8) -> (r: Option<(usize, usize, usize, usize)>)
    requires
        cols * rows <= usize::MAX,
    ensures
        match r {
            Some(b) => is_bbox(b, prev@, cur@, cols as int, rows as int, tol as int),
            None => forall|x: int, y: int|
                0 <= x < cols && 0 <= y < rows ==> !#[trigger] changed(prev@, cur@, cols as int, tol as int, x, y),
        },
{
    if cols == 0 || rows == 0 {
        return None;
    }
    let mut x0: usize = cols;
    let mut y0: usize = rows;
    let mut x1: usize = 0;
    let mut y1: usize = 0;
    let mut y: usize = 0;
    while y < rows
        invariant
            y <= rows,
            cols > 0,
            cols * rows <= usize::MAX,
            so_far(x0 as int, y0 as int, x1 as int, y1 as int, prev@, cur@, cols as int, rows as int, tol as int, 0, y as int),
        decreases rows - y,
    {
        let mut x: usize = 0;
        while x < cols
            invariant
                x <= cols,
                y < rows,
                cols > 0,
                cols * rows <= usize::MAX,
                so_far(
                    x0 as int,
                    y0 as int,
                    x1 as int,
                    y1 as int,
                    prev@,
                    cur@,
                    cols as int,
                    rows as int,
                    tol as int,
                    x as int,
                    y as int,
                ),
            decreases cols - x,
        {
            proof {
                assert(0 <= y * cols + x < cols * rows) by (nonlinear_arith)
                    requires
                        0 <= x < cols,
                        0 <= y < rows,
                ;
                assert(y * cols >= 0) by (nonlinear_arith);
            }
            let i: usize = y * cols + x;
            if abs_diff(get(prev, i), get(cur, i)) > tol {
                assert(changed(prev@, cur@, cols as int, tol as int, x as int, y as int));
                assert(column_changed(prev@, cur@, cols as int, rows as int, tol as int, x as int));
                assert(row_changed(prev@, cur@, cols as int, tol as int, y as int));
                if x < x0 {
                    x0 = x;
                }
                if y < y0 {
                    y0 = y;
                }
                if x + 1 > x1 {
                    x1 = x + 1;
                }
                if y + 1 > y1 {
                    y1 = y + 1;
                }
            }
            x += 1;
        }
        y += 1;
    }
    if x1 == 0 || y1 == 0 {
        return None;
    }
    Some((x0, y0, x1, y1))
}

/// There is only one smallest rectangle, and where there is one, something changed.
pub proof fn boxes_are_unique(
    a: (usize, usize, usize, usize),
    b: (usize, usize, usize, usize),
    p: Seq<u8>,
    q: Seq<u8>,
    cols: int,
    rows: int,
    tol: int,
)
    requires
        is_bbox(a, p, q, cols, rows, tol),
        is_bbox(b, p, q, cols, rows, tol),
    ensures
        a == b,
        exists|x: int, y: int| 0 <= x < cols && 0 <= y < rows && #[trigger] changed(p, q, cols, tol, x, y),
{
}

/// Cell border `v` of `n`, on a side of `size` pixels.
pub open spec fn border(v: int, n: int, size: int) -> int {
    least(v * size / most(n, 1), size)
}

/// The low half of a word.
fn low_half(v: u64) -> (r: u32)
    ensures
        r == v % 0x1_0000_0000,
{
    assert(v as u32 == v % 0x1_0000_0000) by (bit_vector);
    v as u32
}

fn border_of(v: usize, n: usize, size: usize) -> (r: u32)
    requires
        v * size <= u64::MAX,
    ensures
        r == border(v as int, n as int, size as int) % 0x1_0000_0000,
{
    proof {
        assert(v * size >= 0) by (nonlinear_arith);
    }
    let d: u64 = if n > 1 {
        n as u64
    } else {
        1
    };
    let p: u64 = v as u64 * size as u64 / d;
    low_half(
        if p < size as u64 {
            p
        } else {
            size as u64
        },
    )
}

/// A rectangle of cells as one of pixels: left, top, width, height.
pub fn bbox_to_px(bbox: (usize, usize, usize, usize), cols: usize, rows: usize, w: usize, h: usize) -> (r: [u32; 4])
    requires
        bbox.0 * w <= u64::MAX,
        bbox.1 * h <= u64::MAX,
        bbox.2 * w <= u64::MAX,
        bbox.3 * h <= u64::MAX,
    ensures
        ({
            let x0 = border(bbox.0 as int, cols as int, w as int) % 0x1_0000_0000;
            let y0 = border(bbox.1 as int, rows as int, h as int) % 0x1_0000_0000;
            let x1 = border(bbox.2 as int, cols as int, w as int) % 0x1_0000_0000;
            let y1 = border(bbox.3 as int, rows as int, h as int) % 0x1_0000_0000;
            &&& r@[0] == x0
            &&& r@[1] == y0
            &&& r@[2] == most(x1 - x0, 0)
            &&& r@[3] == most(y1 - y0, 0)
        }),
{
    let px0: u32 = border_of(bbox.0, cols, w);
    let py0: u32 = border_of(bbox.1, rows, h);
    let px1: u32 = border_of(bbox.2, cols, w);
    let py1: u32 = border_of(bbox.3, rows, h);
    [px0, py0, px1.saturating_sub(px0), py1.saturating_sub(py0)]
}

/// A rectangle of cells lies, in pixels, within the frame.
pub proof fn boxes_stay_inside(bbox: (usize, usize, usize, usize), cols: int, rows: int, w: int, h: int)
    requires
        bbox.0 <= bbox.2 <= cols,
        bbox.1 <= bbox.3 <= rows,
        0 <= w,
        0 <= h,
    ensures
        0 <= border(bbox.0 as int, cols, w) <= border(bbox.2 as int, cols, w) <= w,
        0 <= border(bbox.1 as int, rows, h) <= border(bbox.3 as int, rows, h) <= h,
{
    lemma_border(bbox.0 as int, bbox.2 as int, cols, w);
    lemma_border(bbox.1 as int, bbox.3 as int, rows, h);
}

proof fn lemma_border(a: int, b: int, n: int, size: int)
    requires
        0 <= a <= b,
        0 <= size,
    ensures
        0 <= border(a, n, size) <= border(b, n, size) <= size,
{
    let d = most(n, 1);
    assert(0 <= a * size <= b * size) by (nonlinear_arith)
        requires
            0 <= a <= b,
            0 <= size,
    ;
    let p = a * size;
    let q = b * size;
    assert(0 <= p / d <= q / d) by (nonlinear_arith)
        requires
            0 <= p <= q,
            d >= 1,
    ;
}

proof fn lemma_one_flip(a: u64, b: u64, c: u64, i: int, n: int)
    requires
        0 <= i < 64,
        0 <= n <= 64,
        bit(c, i) != bit(b, i),
        forall|j: int| 0 <= j < 64 && j != i ==> #[trigger] bit(c, j) == bit(b, j),
    ensures
        differing(a, c, n) == differing(a, b, n) + (if i >= n {
            0int
        } else if bit(a, i) == bit(b, i) {
            1int
        } else {
            -1
        }),
    decreases n,
{
    if n > 0 {
        lemma_one_flip(a, b, c, i, n - 1);
        if n - 1 != i {
            assert(bit(c, n - 1) == bit(b, n - 1));
        }
    }
}

/// Every bit counts once, wherever it stands: turning one bit takes a hash one further away from
/// another where they agreed in it, and one closer where they did not.
pub proof fn every_bit_counts_once(a: u64, b: u64, c: u64, i: int)
    requires
        0 <= i < 64,
        bit(c, i) != bit(b, i),
        forall|j: int| 0 <= j < 64 && j != i ==> #[trigger] bit(c, j) == bit(b, j),
    ensures
        distance(a, c) == distance(a, b) + (if bit(a, i) == bit(b, i) {
            1int
        } else {
            -1
        }),
{
    lemma_one_flip(a, b, c, i, 64);
}

/// Bit `8 * y + x` of a hash tells whether the grid is brighter right of column `x` of row `y`.
pub proof fn bits_compare_neighbours(grid: Seq<u8>, x: int, y: int)
    requires
        grid.len() == 72,
        0 <= x < 8,
        0 <= y < 8,
    ensures
        rises(grid, 8 * y + x) <==> grid[9 * y + x] < grid[9 * y + x + 1],
{
    assert((8 * y + x) / 8 == y && (8 * y + x) % 8 == x);
}

proof fn lemma_shifted_sum(p: Seq<u8>, q: Seq<u8>, n: int, by: int)
    requires
        0 <= n <= p.len(),
        p.len() == q.len(),
        forall|i: int| 0 <= i < p.len() ==> #[trigger] q[i] == p[i] + by,
    ensures
        apart_sum(p, q, n) == n * apart(0, by),
    decreases n,
{
    if n > 0 {
        lemma_shifted_sum(p, q, n - 1, by);
        assert(q[n - 1] == p[n - 1] + by);
        assert(n * apart(0, by) == (n - 1) * apart(0, by) + apart(0, by)) by (nonlinear_arith);
    } else {
        assert(n * apart(0, by) == 0) by (nonlinear_arith)
            requires
                n == 0,
        ;
    }
}

/// A grid that is brighter or darker all over by some amount differs by that amount.
pub proof fn shifts_are_told(p: Seq<u8>, q: Seq<u8>, by: int)
    requires
        p.len() == q.len(),
        p.len() > 0,
        forall|i: int| 0 <= i < p.len() ==> #[trigger] q[i] == p[i] + by,
    ensures
        mean_apart(p, q) == (if by < 0 {
            -by
        } else {
            by
        }),
{
    let n = p.len() as int;
    lemma_shifted_sum(p, q, n, by);
    let k = apart(0, by);
    assert(n * k / n == k) by (nonlinear_arith)
        requires
            n > 0,
    ;
}

proof fn lemma_one_cell(p: Seq<u8>, q: Seq<u8>, n: int, i: int, len: int)
    requires
        0 <= n <= len,
        len == least(p.len() as int, q.len() as int),
        0 <= i < len,
        forall|j: int| 0 <= j < len && j != i ==> #[trigger] q[j] == p[j],
    ensures
        apart_sum(p, q, n) == (if i < n {
            apart(p[i] as int, q[i] as int)
        } else {
            0
        }),
    decreases n,
{
    if n > 0 {
        lemma_one_cell(p, q, n - 1, i, len);
        if n - 1 != i {
            assert(q[n - 1] == p[n - 1]);
        }
    }
}

/// Every cell counts alike, wherever it stands: where a single one changed, the mean is its share of
/// the cells, those of the larger grid where the sizes differ.
pub proof fn cells_count_alike(p: Seq<u8>, q: Seq<u8>, i: int)
    requires
        0 <= i < p.len(),
        i < q.len(),
        forall|j: int| 0 <= j < p.len() && j < q.len() && j != i ==> #[trigger] q[j] == p[j],
    ensures
        mean_apart(p, q) == (if p[i] < q[i] {
            q[i] - p[i]
        } else {
            p[i] - q[i]
        }) / (if p.len() > q.len() {
            p.len() as int
        } else {
            q.len() as int
        }),
{
    let len = least(p.len() as int, q.len() as int);
    lemma_one_cell(p, q, len, i, len);
}

} // verus!
