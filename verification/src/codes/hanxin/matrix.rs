//! Han Xin mask evaluation: the penalty of a candidate module grid (finder-like
//! 1:1:1:1:3 patterns and long same-colour runs), and the data-mask patterns.
use vstd::prelude::*;

verus! {

/// Quiet-zone width required around a Han Xin symbol, in modules.
pub const QUIET_ZONE: usize = 3;

/// Module `k` of line `line` (a column when `vert`, else a row) is dark.
pub open spec fn cell(g: Seq<u8>, n: int, vert: bool, line: int, k: int) -> bool {
    if vert {
        g[k * n + line] != 0
    } else {
        g[line * n + k] != 0
    }
}

/// A finder-like dark/light pattern starts at `k`: dark, x, dark, light, dark, not x,
/// dark.
pub open spec fn finder_like(g: Seq<u8>, n: int, vert: bool, line: int, k: int) -> bool {
    &&& cell(g, n, vert, line, k)
    &&& cell(g, n, vert, line, k + 1) != cell(g, n, vert, line, k + 5)
    &&& cell(g, n, vert, line, k + 2)
    &&& !cell(g, n, vert, line, k + 3)
    &&& cell(g, n, vert, line, k + 4)
    &&& cell(g, n, vert, line, k + 6)
}

/// The three modules before `k` are light (or outside the symbol).
pub open spec fn light_before(g: Seq<u8>, n: int, vert: bool, line: int, k: int) -> bool {
    forall|d: int| 1 <= d <= 3 && k - d >= 0 ==> !#[trigger] cell(g, n, vert, line, k - d)
}

/// The three modules after a pattern starting at `k` are light (or outside).
pub open spec fn light_after(g: Seq<u8>, n: int, vert: bool, line: int, k: int) -> bool {
    forall|d: int| 7 <= d <= 9 && k + d < n ==> !#[trigger] cell(g, n, vert, line, k + d)
}

/// Finder-pattern penalty along a line from `k`: 50 for each finder-like pattern
/// with a light border on either side; a match skips two modules.
pub open spec fn finder_scan(g: Seq<u8>, n: int, vert: bool, line: int, k: int) -> int
    decreases n - k,
{
    if k < 0 || k + 6 >= n {
        0
    } else if finder_like(g, n, vert, line, k) {
        (if light_before(g, n, vert, line, k) || light_after(g, n, vert, line, k) { 50int } else { 0int })
            + finder_scan(g, n, vert, line, k + 2)
    } else {
        finder_scan(g, n, vert, line, k + 1)
    }
}

/// `(penalty, run length, run colour)` after the first `k` modules of a line.
pub open spec fn run_state(g: Seq<u8>, n: int, vert: bool, line: int, k: int) -> (int, int, bool)
    decreases k,
{
    if k <= 0 {
        (0, 0, false)
    } else {
        let (r, b, s) = run_state(g, n, vert, line, k - 1);
        let v = cell(g, n, vert, line, k - 1);
        if v == s {
            (r, b + 1, s)
        } else {
            (r + (if b >= 3 { b * 4 } else { 0 }), 1, v)
        }
    }
}

/// Run penalty of a line: `4 · length` for every same-colour run of 3 or more.
pub open spec fn run_penalty(g: Seq<u8>, n: int, vert: bool, line: int) -> int {
    let (r, b, s) = run_state(g, n, vert, line, n);
    r + (if b >= 3 { b * 4 } else { 0 })
}

/// Both penalties summed over the first `m` lines.
pub open spec fn lines_penalty(g: Seq<u8>, n: int, vert: bool, m: int) -> int
    decreases m,
{
    if m <= 0 {
        0
    } else {
        lines_penalty(g, n, vert, m - 1) + finder_scan(g, n, vert, m - 1, 0) + run_penalty(g, n, vert, m - 1)
    }
}

/// The mask penalty of an `n × n` grid: over columns and rows.
pub open spec fn penalty_spec(g: Seq<u8>, n: int) -> int {
    lines_penalty(g, n, true, n) + lines_penalty(g, n, false, n)
}

/// Module `k` of a line.
fn at(local: &[u8], size: usize, vert: bool, line: usize, k: usize) -> (r: bool)
    requires
        local@.len() == size * size,
        size <= 200,
        line < size,
        k < size,
    ensures
        r == cell(local@, size as int, vert, line as int, k as int),
{
    assert(k * size + line < size * size && line * size + k < size * size && size * size <= 40000) by (nonlinear_arith)
        requires
            line < size,
            k < size,
            size <= 200,
    ;
    if vert {
        local[k * size + line] != 0
    } else {
        local[line * size + k] != 0
    }
}

/// Finder-pattern penalty along one line.
fn finder_line(local: &[u8], size: usize, vert: bool, line: usize) -> (r: u32)
    requires
        local@.len() == size * size,
        size <= 200,
        line < size,
    ensures
        r == finder_scan(local@, size as int, vert, line as int, 0),
        r <= 50 * size,
{
    let mut result: u32 = 0;
    let mut k: usize = 0;
    while k + 6 < size
        invariant
            local@.len() == size * size,
            size <= 200,
            line < size,
            k <= size,
            result + finder_scan(local@, size as int, vert, line as int, k as int) == finder_scan(
                local@,
                size as int,
                vert,
                line as int,
                0,
            ),
            result <= 25 * k,
        decreases size - k,
    {
        let matched = at(local, size, vert, line, k) && at(local, size, vert, line, k + 1) != at(
            local,
            size,
            vert,
            line,
            k + 5,
        ) && at(local, size, vert, line, k + 2) && !at(local, size, vert, line, k + 3) && at(
            local,
            size,
            vert,
            line,
            k + 4,
        ) && at(local, size, vert, line, k + 6);
        if matched {
            // Light border before?
            let mut before = true;
            let mut d: usize = 1;
            while d <= 3
                invariant
                    1 <= d <= 4,
                    local@.len() == size * size,
                    size <= 200,
                    line < size,
                    k + 6 < size,
                    before == (forall|e: int| 1 <= e < d && k - e >= 0 ==> !#[trigger] cell(
                        local@,
                        size as int,
                        vert,
                        line as int,
                        k - e,
                    )),
                decreases 4 - d,
            {
                if d <= k && at(local, size, vert, line, k - d) {
                    before = false;
                }
                d = d + 1;
            }
            let mut after = true;
            let mut d2: usize = 7;
            while d2 <= 9
                invariant
                    7 <= d2 <= 10,
                    local@.len() == size * size,
                    size <= 200,
                    line < size,
                    k + 6 < size,
                    after == (forall|e: int| 7 <= e < d2 && k + e < size ==> !#[trigger] cell(
                        local@,
                        size as int,
                        vert,
                        line as int,
                        k + e,
                    )),
                decreases 10 - d2,
            {
                if k + d2 < size && at(local, size, vert, line, k + d2) {
                    after = false;
                }
                d2 = d2 + 1;
            }
            if before || after {
                result = result + 50;
            }
            k = k + 2;
        } else {
            k = k + 1;
        }
    }
    result
}

/// Run penalty of one line.
fn runs_line(local: &[u8], size: usize, vert: bool, line: usize) -> (r: u32)
    requires
        local@.len() == size * size,
        size <= 200,
        line < size,
    ensures
        r == run_penalty(local@, size as int, vert, line as int),
        r <= 8 * size,
{
    let mut result: u32 = 0;
    let mut block: u32 = 0;
    let mut state = false;
    let mut k: usize = 0;
    while k < size
        invariant
            local@.len() == size * size,
            size <= 200,
            line < size,
            k <= size,
            block <= k,
            result + 4 * block <= 4 * k,
            (result as int, block as int, state) == run_state(local@, size as int, vert, line as int, k as int),
        decreases size - k,
    {
        let v = at(local, size, vert, line, k);
        if v == state {
            block = block + 1;
        } else {
            if block >= 3 {
                result = result + block * 4;
            }
            block = 1;
            state = v;
        }
        k = k + 1;
    }
    if block >= 3 {
        result = result + block * 4;
    }
    result
}

/// The Han Xin mask penalty of an `size × size` 0/1 grid: 50 for each finder-like
/// 1:1:1:1:3 pattern with a light border, plus `4 · length` for every same-colour
/// run of three or more, over columns and then rows. Lower is better.
pub fn evaluate(local: &[u8], size: usize) -> (r: u32)
    requires
        local@.len() == size * size,
        size <= 200,
    ensures
        r == penalty_spec(local@, size as int),
{
    let mut result: u32 = 0;
    let mut pass: usize = 0;
    while pass < 2
        invariant
            local@.len() == size * size,
            size <= 200,
            pass <= 2,
            result <= 58 * size * size * pass,
            result == (if pass >= 1 { lines_penalty(local@, size as int, true, size as int) } else { 0 }) + (if pass
                >= 2 { lines_penalty(local@, size as int, false, size as int) } else { 0 }),
        decreases 2 - pass,
    {
        let vert = pass == 0;
        let mut part: u32 = 0;
        let mut line: usize = 0;
        while line < size
            invariant
                local@.len() == size * size,
                size <= 200,
                line <= size,
                part <= 58 * size * line,
                part == lines_penalty(local@, size as int, vert, line as int),
            decreases size - line,
        {
            let f = finder_line(local, size, vert, line);
            let g = runs_line(local, size, vert, line);
            assert(58 * size * line + 58 * size == 58 * size * (line + 1) && 58 * size * (line + 1) <= 2320000)
                by (nonlinear_arith)
                requires
                    line < size,
                    size <= 200,
            ;
            part = part + f + g;
            line = line + 1;
        }
        assert(58 * size * size * pass + 58 * size * size == 58 * size * size * (pass + 1)) by (nonlinear_arith);
        assert(58 * size * size * 2 <= 4640000) by (nonlinear_arith)
            requires
                size <= 200,
        ;
        result = result + part;
        pass = pass + 1;
    }
    result
}

/// Whether data-mask `pattern` (1–3; 0 is the null mask) flips module `(x, y)`,
/// with 1-based coordinates `i = y + 1`, `j = x + 1`.
pub open spec fn mask_flip_spec(pattern: u8, x: int, y: int) -> bool {
    let i = y + 1;
    let j = x + 1;
    if pattern == 1 {
        (i + j) % 2 == 0
    } else if pattern == 2 {
        ((i + j) % 3 + j % 3) % 2 == 0
    } else if pattern == 3 {
        (i % j + j % i + i % 3 + j % 3) % 2 == 0
    } else {
        false
    }
}

/// Whether data-mask `pattern` flips module `(x, y)`.
pub fn mask_flip(pattern: u8, x: usize, y: usize) -> (r: bool)
    requires
        x < 1000,
        y < 1000,
    ensures
        r == mask_flip_spec(pattern, x as int, y as int),
{
    let i = y + 1;
    let j = x + 1;
    if pattern == 1 {
        (i + j) % 2 == 0
    } else if pattern == 2 {
        ((i + j) % 3 + j % 3) % 2 == 0
    } else if pattern == 3 {
        (i % j + j % i + i % 3 + j % 3) % 2 == 0
    } else {
        false
    }
}

} // verus!
