//! DotCode mask scoring (AIM ISS DotCode Rev 4.0, Annex A): edge fill, empty rows
//! and columns, and isolated dots. Arithmetic saturates at the `i64` bounds, which
//! no real symbol comes near.
use vstd::prelude::*;

verus! {

/// Score of a symbol with an unlit edge.
pub const SCORE_UNLIT_EDGE: i64 = -99999;

/// `x` clamped to the `i64` range.
pub open spec fn clamp(x: int) -> int {
    if x > i64::MAX {
        i64::MAX as int
    } else if x < i64::MIN {
        i64::MIN as int
    } else {
        x
    }
}

/// The dot at column `x`, row `y` (light outside the grid).
pub open spec fn dot_at(g: Seq<bool>, h: int, w: int, x: int, y: int) -> bool {
    0 <= x < w && 0 <= y < h && g[y * w + x]
}

/// Column `x` has no lit dot on the checkerboard.
pub open spec fn clear_col(g: Seq<bool>, h: int, w: int, x: int) -> bool {
    forall|y: int| 0 <= y < h && y % 2 == x % 2 ==> !#[trigger] dot_at(g, h, w, x, y)
}

/// Row `y` has no lit dot on the checkerboard.
pub open spec fn clear_row(g: Seq<bool>, h: int, w: int, y: int) -> bool {
    forall|x: int| 0 <= x < w && x % 2 == y % 2 ==> !#[trigger] dot_at(g, h, w, x, y)
}

/// `(penalty, run)` after the interior lines `1..n`: a run of `k` consecutive clear
/// lines costs `len^k`.
pub open spec fn run_state(g: Seq<bool>, h: int, w: int, n: int, cols: bool) -> (int, int)
    decreases n,
{
    if n <= 1 {
        (0, 0)
    } else {
        let (p, l) = run_state(g, h, w, n - 1, cols);
        let len = if cols { h } else { w };
        let clear = if cols { clear_col(g, h, w, n - 1) } else { clear_row(g, h, w, n - 1) };
        if clear {
            (p, if l == 0 { len } else { clamp(l * len) })
        } else if l != 0 {
            (clamp(p + l), 0)
        } else {
            (p, 0)
        }
    }
}

/// Penalty for runs of clear interior columns (or rows).
pub open spec fn run_penalty(g: Seq<bool>, h: int, w: int, cols: bool) -> int {
    let n = if cols { w - 1 } else { h - 1 };
    let (p, l) = run_state(g, h, w, n, cols);
    clamp(p + l)
}

/// `(lit count, first lit coordinate, last lit coordinate)` over the first `n`
/// samples `g[idx0 + k·stride]` at coordinates `c0 + 2k` (−1 when none is lit).
pub open spec fn edge_stats(g: Seq<bool>, idx0: int, stride: int, c0: int, n: int) -> (int, int, int)
    decreases n,
{
    if n <= 0 {
        (0, -1, -1)
    } else {
        let (s, f, l) = edge_stats(g, idx0, stride, c0, n - 1);
        let c = c0 + 2 * (n - 1);
        if g[idx0 + (n - 1) * stride] {
            (s + 1, if f < 0 { c } else { f }, c)
        } else {
            (s, f, l)
        }
    }
}

/// Fill measure of an edge: lit dots plus the span they cover.
pub open spec fn edge_fill(g: Seq<bool>, idx0: int, stride: int, c0: int, n: int) -> int {
    let (s, f, l) = edge_stats(g, idx0, stride, c0, n);
    s + l - f
}

/// Lit dots on an edge.
pub open spec fn edge_lit(g: Seq<bool>, idx0: int, stride: int, c0: int, n: int) -> int {
    edge_stats(g, idx0, stride, c0, n).0
}

/// The top, bottom, left and right edges as `(idx0, stride, c0, n)`.
pub open spec fn edges(h: int, w: int) -> Seq<(int, int, int, int)> {
    seq![
        (0, 2, 0, (w + 1) / 2),
        ((h - 1) * w + w % 2, 2, w % 2, (w - w % 2 + 1) / 2),
        (0, 2 * w, 0, (h + 1) / 2),
        ((h % 2) * w + w - 1, 2 * w, h % 2, (h - h % 2 + 1) / 2),
    ]
}

/// Every edge has a lit dot.
pub open spec fn edges_lit(g: Seq<bool>, h: int, w: int) -> bool {
    forall|e: int| 0 <= e < 4 ==> edge_lit(g, edges(h, w)[e].0, edges(h, w)[e].1, edges(h, w)[e].2,
        edges(h, w)[e].3) > 0
}

/// The least edge fill, each weighted by the length of the opposite side.
pub open spec fn worst_edge(g: Seq<bool>, h: int, w: int) -> int {
    let es = edges(h, w);
    let t = edge_fill(g, es[0].0, es[0].1, es[0].2, es[0].3) * h;
    let b = edge_fill(g, es[1].0, es[1].1, es[1].2, es[1].3) * h;
    let l = edge_fill(g, es[2].0, es[2].1, es[2].2, es[2].3) * w;
    let r = edge_fill(g, es[3].0, es[3].1, es[3].2, es[3].3) * w;
    let m1 = if b < t { b } else { t };
    let m2 = if l < m1 { l } else { m1 };
    if r < m2 { r } else { m2 }
}

/// Checkerboard position `(x, y)` is light with light diagonal neighbours, or lit
/// with light diagonal and orthogonal-2 neighbours.
pub open spec fn isolated(g: Seq<bool>, h: int, w: int, x: int, y: int) -> bool {
    &&& !dot_at(g, h, w, x - 1, y - 1) && !dot_at(g, h, w, x + 1, y - 1)
    &&& !dot_at(g, h, w, x - 1, y + 1) && !dot_at(g, h, w, x + 1, y + 1)
    &&& (!dot_at(g, h, w, x, y) || (!dot_at(g, h, w, x - 2, y) && !dot_at(g, h, w, x, y - 2) && !dot_at(
        g,
        h,
        w,
        x + 2,
        y,
    ) && !dot_at(g, h, w, x, y + 2)))
}

/// Isolated checkerboard positions among the first `n` cells in row-major order.
pub open spec fn isolated_count(g: Seq<bool>, h: int, w: int, n: int) -> int
    decreases n,
{
    if n <= 0 {
        0
    } else {
        let t = n - 1;
        let x = t % w;
        let y = t / w;
        isolated_count(g, h, w, n - 1) + if x % 2 == y % 2 && isolated(g, h, w, x, y) { 1int } else { 0int }
    }
}

/// The mask score of a dot grid (higher is better).
pub open spec fn score_spec(g: Seq<bool>, h: int, w: int) -> int {
    if !edges_lit(g, h, w) {
        SCORE_UNLIT_EDGE as int
    } else {
        let penalty = clamp(run_penalty(g, h, w, false) + run_penalty(g, h, w, true));
        let iso = isolated_count(g, h, w, h * w);
        clamp(worst_edge(g, h, w) - iso * iso - penalty)
    }
}

/// `a · b` saturated at `i64::MAX` (both non-negative).
fn sat_mul(a: i64, b: i64) -> (r: i64)
    requires
        a >= 0,
        b >= 0,
    ensures
        r == clamp(a * b),
{
    if a == 0 || b <= i64::MAX / a {
        proof {
            assert(a * b <= i64::MAX) by (nonlinear_arith)
                requires
                    a == 0 || b <= i64::MAX / a,
                    a >= 0,
                    b >= 0,
            ;
            assert(a * b >= 0) by (nonlinear_arith)
                requires
                    a >= 0,
                    b >= 0,
            ;
        }
        a * b
    } else {
        proof {
            assert(a * b > i64::MAX) by (nonlinear_arith)
                requires
                    b > i64::MAX / a,
                    a > 0,
            ;
        }
        i64::MAX
    }
}

/// `a + b` saturated at `i64::MAX` (both non-negative).
fn sat_add(a: i64, b: i64) -> (r: i64)
    requires
        a >= 0,
        b >= 0,
    ensures
        r == clamp(a + b),
{
    if a <= i64::MAX - b {
        a + b
    } else {
        i64::MAX
    }
}

/// The dot at `(x, y)`, light outside the grid.
pub fn get_dot(grid: &[bool], height: usize, width: usize, x: i64, y: i64) -> (r: bool)
    requires
        grid@.len() == width * height,
        width <= 200,
        height <= 200,
    ensures
        r == dot_at(grid@, height as int, width as int, x as int, y as int),
{
    if x >= 0 && x < width as i64 && y >= 0 && y < height as i64 {
        let xu = x as usize;
        let yu = y as usize;
        assert(yu * width + xu < width * height && yu * width + xu < 40000 && yu * width <= 40000) by (nonlinear_arith)
            requires
                xu < width,
                yu < height,
                width <= 200,
                height <= 200,
        ;
        grid[yu * width + xu]
    } else {
        false
    }
}

/// Column `x` has no lit checkerboard dot.
pub fn clr_col(grid: &[bool], height: usize, width: usize, x: usize) -> (r: bool)
    requires
        grid@.len() == width * height,
        width <= 200,
        height <= 200,
        x < width,
    ensures
        r == clear_col(grid@, height as int, width as int, x as int),
{
    let mut y = x % 2;
    while y < height
        invariant
            y % 2 == x % 2,
            y <= height + 1,
            width <= 200,
            height <= 200,
            x < width,
            grid@.len() == width * height,
            forall|y2: int| 0 <= y2 < y && y2 % 2 == x % 2 ==> !#[trigger] dot_at(grid@, height as int, width as int, x as int, y2),
        decreases height + 1 - y,
    {
        if get_dot(grid, height, width, x as i64, y as i64) {
            return false;
        }
        y = y + 2;
    }
    proof {
        assert forall|y2: int| 0 <= y2 < height && y2 % 2 == x % 2 implies !#[trigger] dot_at(grid@, height as int, width as int, x as int, y2) by {
            assert(y2 < y);
        }
    }
    true
}

/// Row `y` has no lit checkerboard dot.
pub fn clr_row(grid: &[bool], height: usize, width: usize, y: usize) -> (r: bool)
    requires
        grid@.len() == width * height,
        width <= 200,
        height <= 200,
        y < height,
    ensures
        r == clear_row(grid@, height as int, width as int, y as int),
{
    let mut x = y % 2;
    while x < width
        invariant
            x % 2 == y % 2,
            x <= width + 1,
            width <= 200,
            height <= 200,
            y < height,
            grid@.len() == width * height,
            forall|x2: int| 0 <= x2 < x && x2 % 2 == y % 2 ==> !#[trigger] dot_at(grid@, height as int, width as int, x2, y as int),
        decreases width + 1 - x,
    {
        if get_dot(grid, height, width, x as i64, y as i64) {
            return false;
        }
        x = x + 2;
    }
    proof {
        assert forall|x2: int| 0 <= x2 < width && x2 % 2 == y % 2 implies !#[trigger] dot_at(grid@, height as int, width as int, x2, y as int) by {
            assert(x2 < x);
        }
    }
    true
}

/// Penalty for runs of clear interior columns (`cols`) or rows.
fn line_penalty(grid: &[bool], height: usize, width: usize, cols: bool) -> (r: i64)
    requires
        grid@.len() == width * height,
        2 <= width <= 200,
        2 <= height <= 200,
    ensures
        r == run_penalty(grid@, height as int, width as int, cols),
        r >= 0,
{
    let n = if cols { width - 1 } else { height - 1 };
    let len: i64 = if cols { height as i64 } else { width as i64 };
    let mut penalty: i64 = 0;
    let mut local: i64 = 0;
    let mut i: usize = 1;
    while i < n
        invariant
            1 <= i <= n,
            n == (if cols { width - 1 } else { height - 1 }),
            len == (if cols { height } else { width }),
            grid@.len() == width * height,
            2 <= width <= 200,
            2 <= height <= 200,
            penalty >= 0,
            local >= 0,
            (penalty as int, local as int) == run_state(grid@, height as int, width as int, i as int, cols),
        decreases n - i,
    {
        let clear = if cols {
            clr_col(grid, height, width, i)
        } else {
            clr_row(grid, height, width, i)
        };
        if clear {
            local = if local == 0 { len } else { sat_mul(local, len) };
        } else if local != 0 {
            penalty = sat_add(penalty, local);
            local = 0;
        }
        i = i + 1;
    }
    sat_add(penalty, local)
}

/// Penalty for runs of clear interior columns.
pub fn col_penalty(grid: &[bool], height: usize, width: usize) -> (r: i64)
    requires
        grid@.len() == width * height,
        2 <= width <= 200,
        2 <= height <= 200,
    ensures
        r == run_penalty(grid@, height as int, width as int, true),
        r >= 0,
{
    line_penalty(grid, height, width, true)
}

/// Penalty for runs of clear interior rows.
pub fn row_penalty(grid: &[bool], height: usize, width: usize) -> (r: i64)
    requires
        grid@.len() == width * height,
        2 <= width <= 200,
        2 <= height <= 200,
    ensures
        r == run_penalty(grid@, height as int, width as int, false),
        r >= 0,
{
    line_penalty(grid, height, width, false)
}

/// Lit count, first and last lit coordinate along one edge.
fn edge_scan(grid: &[bool], idx0: usize, stride: usize, c0: usize, n: usize) -> (r: (i64, i64, i64))
    requires
        n <= 200,
        c0 <= 1,
        n == 0 || idx0 + (n - 1) * stride < grid@.len(),
        stride <= 400,
        grid@.len() <= 40000,
    ensures
        (r.0 as int, r.1 as int, r.2 as int) == edge_stats(grid@, idx0 as int, stride as int, c0 as int, n as int),
        0 <= r.0 <= n,
        -1 <= r.1 <= 2 * n,
        -1 <= r.2 <= 2 * n,
{
    let mut sum: i64 = 0;
    let mut first: i64 = -1;
    let mut last: i64 = -1;
    let mut k: usize = 0;
    while k < n
        invariant
            k <= n,
            n <= 200,
            c0 <= 1,
            stride <= 400,
            grid@.len() <= 40000,
            n == 0 || idx0 + (n - 1) * stride < grid@.len(),
            0 <= sum <= k,
            -1 <= first <= 2 * k,
            -1 <= last <= 2 * k,
            (sum as int, first as int, last as int) == edge_stats(grid@, idx0 as int, stride as int, c0 as int, k as int),
        decreases n - k,
    {
        assert(idx0 + k * stride <= idx0 + (n - 1) * stride && k * stride <= 80000) by (nonlinear_arith)
            requires
                k < n,
                n <= 200,
                stride <= 400,
        ;
        let idx = idx0 + k * stride;
        if grid[idx] {
            let c = (c0 + 2 * k) as i64;
            if first < 0 {
                first = c;
            }
            last = c;
            sum = sum + 1;
        }
        k = k + 1;
    }
    (sum, first, last)
}

/// Isolated checkerboard positions in the whole grid.
fn isolated_dots(grid: &[bool], height: usize, width: usize) -> (r: i64)
    requires
        grid@.len() == width * height,
        1 <= width <= 200,
        1 <= height <= 200,
    ensures
        r == isolated_count(grid@, height as int, width as int, height * width),
        0 <= r <= 40000,
{
    assert(height * width <= 40000) by (nonlinear_arith)
        requires
            width <= 200,
            height <= 200,
    ;
    let n = height * width;
    let mut sum: i64 = 0;
    let mut t: usize = 0;
    while t < n
        invariant
            t <= n,
            n == height * width,
            n <= 40000,
            grid@.len() == width * height,
            1 <= width <= 200,
            1 <= height <= 200,
            0 <= sum <= t,
            sum == isolated_count(grid@, height as int, width as int, t as int),
        decreases n - t,
    {
        let x = (t % width) as i64;
        let y = (t / width) as i64;
        if x % 2 == y % 2 {
            if !get_dot(grid, height, width, x - 1, y - 1) && !get_dot(grid, height, width, x + 1, y - 1)
                && !get_dot(grid, height, width, x - 1, y + 1) && !get_dot(grid, height, width, x + 1, y + 1)
                && (!get_dot(grid, height, width, x, y) || (!get_dot(grid, height, width, x - 2, y) && !get_dot(
                grid,
                height,
                width,
                x,
                y - 2,
            ) && !get_dot(grid, height, width, x + 2, y) && !get_dot(grid, height, width, x, y + 2))) {
                sum = sum + 1;
            }
        }
        t = t + 1;
    }
    sum
}

/// The Annex A mask score of a dot grid: the worst edge fill, less the square of
/// the isolated-dot count and the clear-line penalties; [`SCORE_UNLIT_EDGE`] when an
/// edge has no lit dot.
pub fn score_array(grid: &[bool], height: usize, width: usize) -> (r: i64)
    requires
        grid@.len() == width * height,
        2 <= width <= 200,
        2 <= height <= 200,
    ensures
        r == score_spec(grid@, height as int, width as int),
{
    let h = height as i64;
    let w = width as i64;
    let penalty = sat_add(row_penalty(grid, height, width), col_penalty(grid, height, width));
    let ghost g = grid@;
    let ghost es = edges(height as int, width as int);
    proof {
        assert((height - 1) * width + width == height * width && 2 * width * ((height + 1) / 2 - 1) < height * width
            && ((width + 1) / 2 - 1) * 2 < height * width
            && (height % 2) * width + width - 1 + 2 * width * ((height - height % 2 + 1) / 2 - 1) < height * width
            && height * width <= 40000 && height * width == width * height)
            by (nonlinear_arith)
            requires
                2 <= width <= 200,
                2 <= height <= 200,
        ;
    }
    let hw1 = (height - 1) * width;
    // Top edge.
    assert(((width + 1) / 2 - 1) * 2 < grid@.len());
    let (s0, f0, l0) = edge_scan(grid, 0, 2, 0, (width + 1) / 2);
    if s0 == 0 {
        return SCORE_UNLIT_EDGE;
    }
    assert(-200000 <= (s0 + l0 - f0) * h <= 100000) by (nonlinear_arith)
        requires
            -1000 <= s0 + l0 - f0 <= 500,
            2 <= h <= 200,
    ;
    let mut worst: i64 = (s0 + l0 - f0) * h;
    // Bottom edge.
    let (s1, f1, l1) = edge_scan(grid, hw1 + width % 2, 2, width % 2, (width - width % 2 + 1) / 2);
    if s1 == 0 {
        return SCORE_UNLIT_EDGE;
    }
    assert(-200000 <= (s1 + l1 - f1) * h <= 100000) by (nonlinear_arith)
        requires
            -1000 <= s1 + l1 - f1 <= 500,
            2 <= h <= 200,
    ;
    let e1 = (s1 + l1 - f1) * h;
    if e1 < worst {
        worst = e1;
    }
    // Left edge.
    let (s2, f2, l2) = edge_scan(grid, 0, 2 * width, 0, (height + 1) / 2);
    if s2 == 0 {
        return SCORE_UNLIT_EDGE;
    }
    assert(-200000 <= (s2 + l2 - f2) * w <= 100000) by (nonlinear_arith)
        requires
            -1000 <= s2 + l2 - f2 <= 500,
            2 <= w <= 200,
    ;
    let e2 = (s2 + l2 - f2) * w;
    if e2 < worst {
        worst = e2;
    }
    // Right edge.
    let (s3, f3, l3) = edge_scan(grid, (height % 2) * width + width - 1, 2 * width, height % 2, (height - height % 2 + 1) / 2);
    if s3 == 0 {
        return SCORE_UNLIT_EDGE;
    }
    assert(-200000 <= (s3 + l3 - f3) * w <= 100000) by (nonlinear_arith)
        requires
            -1000 <= s3 + l3 - f3 <= 500,
            2 <= w <= 200,
    ;
    let e3 = (s3 + l3 - f3) * w;
    if e3 < worst {
        worst = e3;
    }
    // Isolated-dot / cross-pattern penalties.
    let sum = isolated_dots(grid, height, width);
    assert(0 <= sum * sum <= 1600000000) by (nonlinear_arith)
        requires
            0 <= sum <= 40000,
    ;
    let iso2 = sum * sum;
    let base = worst - iso2;
    if base < i64::MIN + penalty {
        i64::MIN
    } else {
        base - penalty
    }
}

} // verus!
