//! Micro QR module layout: the finder pattern, edge timing patterns, format
//! information, the four data masks and the data zig-zag path.
//!
//! [`Canvas`] is the workspace of both encoding (place data, mask, stamp format
//! information) and decoding (read the format information, then the data along the
//! same path).
use vstd::prelude::*;
use crate::codes::microqr::tables::{decode_format, format_bits, format_spec, hamming16};
use crate::codes::microqr::{MicroMask, MicroVersion};
use crate::output::BitMatrix;

verus! {

/// Quiet-zone width required around a Micro QR symbol, in modules.
pub const QUIET_ZONE: usize = 2;

/// `(x, y)` is a function module: the finder with its separator and format strips
/// (the top-left 9 × 9 block) or an edge timing pattern. The same for every version.
pub open spec fn is_function_spec(x: int, y: int) -> bool {
    (x <= 8 && y <= 8) || x == 0 || y == 0
}

/// Whether `(x, y)` is a function module.
pub fn is_function_module(x: usize, y: usize) -> (r: bool)
    ensures
        r == is_function_spec(x as int, y as int),
{
    (x <= 8 && y <= 8) || x == 0 || y == 0
}

/// Whether mask `m` (0–3) flips module `(x, y)` (row `i = y`, column `j = x`).
pub open spec fn mask_spec(m: u8, x: int, y: int) -> bool {
    let i = y;
    let j = x;
    if m == 0 {
        i % 2 == 0
    } else if m == 1 {
        (i / 2 + j / 3) % 2 == 0
    } else if m == 2 {
        ((i * j) % 2 + (i * j) % 3) % 2 == 0
    } else {
        ((i + j) % 2 + (i * j) % 3) % 2 == 0
    }
}

/// The `t`-th cell of the zig-zag walk of a `size × size` symbol: two-column strips
/// from the right, right column first, alternately upward and downward.
pub open spec fn zigzag(size: int, t: int) -> (int, int) {
    let s = t / (2 * size);
    let u = t % (2 * size);
    let row = u / 2;
    let left = u % 2 == 1;
    let col = size - 1 - 2 * s;
    let y = if s % 2 == 0 { size - 1 - row } else { row };
    let x = if left { col - 1 } else { col };
    (x, y)
}

/// The data cells among the first `t` steps of the walk, in order.
pub open spec fn path_prefix(size: int, t: nat) -> Seq<(int, int)>
    decreases t,
{
    if t == 0 {
        Seq::empty()
    } else {
        let p = path_prefix(size, (t - 1) as nat);
        let c = zigzag(size, t - 1);
        if is_function_spec(c.0, c.1) { p } else { p.push(c) }
    }
}

/// Steps of the walk: `(size − 1) / 2` strips of `2 · size` cells.
pub open spec fn walk_len(size: int) -> int {
    (size - 1) / 2 * (2 * size)
}

/// The finder pattern: a dark ring and a dark 3 × 3 core in a 7 × 7 square.
pub open spec fn finder_spec(x: int, y: int) -> bool {
    x == 0 || x == 6 || y == 0 || y == 6 || (2 <= x <= 4 && 2 <= y <= 4)
}

/// The dark modules of the timing patterns: every other module from column 8 along
/// the top row and from row 8 down the left column.
pub open spec fn timing_spec(x: int, y: int) -> bool {
    (y == 0 && x >= 8 && x % 2 == 0) || (x == 0 && y >= 8 && y % 2 == 0)
}

/// Bit `i` of the format code.
pub open spec fn fmt_bit(bits: u16, i: int) -> bool {
    (bits >> (i as u16)) & 1 != 0
}

/// Module `(x, y)` once the format code `bits` is stamped: bits 0–7 down column 8
/// (rows 1–8), bits 14–7 along row 8 (columns 1–8); `other` elsewhere.
pub open spec fn format_module(bits: u16, x: int, y: int, other: bool) -> bool {
    if x == 8 && 1 <= y <= 8 {
        fmt_bit(bits, y - 1)
    } else if y == 8 && 1 <= x <= 8 {
        fmt_bit(bits, 15 - x)
    } else {
        other
    }
}

/// A square Micro QR module grid.
pub struct Canvas {
    /// Side length.
    pub size: usize,
    /// The modules.
    pub grid: BitMatrix,
}

impl Canvas {
    /// The canvas is a `size × size` grid of a valid version.
    pub open spec fn wf(&self) -> bool {
        &&& self.grid.wf()
        &&& self.grid.width == self.size
        &&& self.grid.height == self.size
        &&& 11 <= self.size <= 17
        &&& self.size % 2 == 1
    }

    /// Module `(x, y)`.
    pub open spec fn at(&self, x: int, y: int) -> bool {
        self.grid.at(x, y)
    }

    /// A canvas for `version` with the finder and timing patterns placed, and no
    /// data or format bits yet.
    pub fn new(version: MicroVersion) -> (c: Canvas)
        ensures
            c.wf(),
            c.size == 11 + 2 * (crate::codes::microqr::version_number(version) - 1),
    {
        let size = version.size();
        assert(size * size <= 289) by (nonlinear_arith)
            requires
                size <= 17,
        ;
        let grid = BitMatrix::new(size, size, QUIET_ZONE);
        let mut c = Canvas { size, grid };
        c.place_finder();
        c.place_timing();
        c
    }

    /// Rebuild a canvas of `version` from an already-sampled matrix.
    pub fn from_matrix(version: MicroVersion, matrix: &BitMatrix) -> (c: Canvas)
        requires
            matrix.wf(),
            matrix.width >= 11 + 2 * (crate::codes::microqr::version_number(version) - 1),
            matrix.height >= 11 + 2 * (crate::codes::microqr::version_number(version) - 1),
        ensures
            c.wf(),
            c.size == 11 + 2 * (crate::codes::microqr::version_number(version) - 1),
            forall|x: int, y: int| 0 <= x < c.size && 0 <= y < c.size ==> #[trigger] c.at(x, y) == matrix.at(x, y),
    {
        let size = version.size();
        assert(size * size <= 289) by (nonlinear_arith)
            requires
                size <= 17,
        ;
        let mut grid = BitMatrix::new(size, size, QUIET_ZONE);
        let mut y: usize = 0;
        while y < size
            invariant
                11 <= size <= 17,
                y <= size,
                grid.wf(),
                grid.width == size,
                grid.height == size,
                grid.quiet_zone == QUIET_ZONE,
                matrix.wf(),
                matrix.width >= size,
                matrix.height >= size,
                forall|x2: int, y2: int| 0 <= x2 < size && 0 <= y2 < y ==> #[trigger] grid.at(x2, y2) == matrix.at(x2, y2),
            decreases size - y,
        {
            let mut x: usize = 0;
            while x < size
                invariant
                    11 <= size <= 17,
                    y < size,
                    x <= size,
                    grid.wf(),
                    grid.width == size,
                    grid.height == size,
                    grid.quiet_zone == QUIET_ZONE,
                    matrix.wf(),
                    matrix.width >= size,
                    matrix.height >= size,
                    forall|x2: int, y2: int| 0 <= x2 < size && 0 <= y2 < y ==> #[trigger] grid.at(x2, y2) == matrix.at(x2, y2),
                    forall|x2: int| 0 <= x2 < x ==> #[trigger] grid.at(x2, y as int) == matrix.at(x2, y as int),
                decreases size - x,
            {
                let v = matrix.get(x, y);
                let ghost before = grid;
                grid.set(x, y, v);
                proof {
                    lemma_set_at(before, grid, x as int, y as int, v);
                }
                x = x + 1;
            }
            y = y + 1;
        }
        Canvas { size, grid }
    }

    /// Module value at `(x, y)`.
    pub fn get(&self, x: usize, y: usize) -> (b: bool)
        requires
            self.wf(),
            x < self.size,
            y < self.size,
        ensures
            b == self.at(x as int, y as int),
    {
        self.grid.get(x, y)
    }

    /// The finished module grid.
    pub fn into_grid(self) -> (m: BitMatrix)
        ensures
            m == self.grid,
    {
        self.grid
    }

    /// Dark ring and 3 × 3 core of the 7 × 7 finder at the top-left corner.
    fn place_finder(&mut self)
        requires
            old(self).wf(),
        ensures
            final(self).wf(),
            final(self).size == old(self).size,
            final(self).grid.quiet_zone == old(self).grid.quiet_zone,
            forall|x: int, y: int|
                0 <= x < final(self).size && 0 <= y < final(self).size ==> #[trigger] final(self).at(x, y) == (if x < 7
                    && y < 7 { finder_spec(x, y) } else { old(self).at(x, y) }),
    {
        let ghost start = *self;
        let mut dy: usize = 0;
        while dy < 7
            invariant
                self.wf(),
                self.size == start.size,
                self.grid.quiet_zone == start.grid.quiet_zone,
                start.wf(),
                dy <= 7,
                forall|x: int, y: int|
                    0 <= x < self.size && 0 <= y < self.size ==> #[trigger] self.at(x, y) == (if x < 7 && y < dy {
                        finder_spec(x, y)
                    } else {
                        start.at(x, y)
                    }),
            decreases 7 - dy,
        {
            let mut dx: usize = 0;
            while dx < 7
                invariant
                    self.wf(),
                    self.size == start.size,
                    self.grid.quiet_zone == start.grid.quiet_zone,
                    start.wf(),
                    dy < 7,
                    dx <= 7,
                    forall|x: int, y: int|
                        0 <= x < self.size && 0 <= y < self.size ==> #[trigger] self.at(x, y) == (if (x < 7 && y < dy)
                            || (x < dx && y == dy) { finder_spec(x, y) } else { start.at(x, y) }),
                decreases 7 - dx,
            {
                let ring = dx == 0 || dx == 6 || dy == 0 || dy == 6;
                let core = 2 <= dx && dx <= 4 && 2 <= dy && dy <= 4;
                let ghost before = self.grid;
                let ghost cb = *self;
                self.grid.set(dx, dy, ring || core);
                proof {
                    lemma_set_at(before, self.grid, dx as int, dy as int, ring || core);
                    assert forall|x: int, y: int| 0 <= x < self.size && 0 <= y < self.size implies #[trigger] self.at(
                        x,
                        y,
                    ) == (if (x < 7 && y < dy) || (x < dx + 1 && y == dy) { finder_spec(x, y) } else { start.at(x, y) })
                        by {
                        if x != dx || y != dy {
                            assert(self.grid.at(x, y) == before.at(x, y));
                            assert(cb.at(x, y) == before.at(x, y));
                        }
                    }
                }
                dx = dx + 1;
            }
            dy = dy + 1;
        }
    }

    /// Timing patterns along the top row and the left column.
    fn place_timing(&mut self)
        requires
            old(self).wf(),
        ensures
            final(self).wf(),
            final(self).size == old(self).size,
            final(self).grid.quiet_zone == old(self).grid.quiet_zone,
            forall|x: int, y: int|
                0 <= x < final(self).size && 0 <= y < final(self).size ==> #[trigger] final(self).at(x, y) == (if timing_spec(
                    x,
                    y,
                ) { true } else { old(self).at(x, y) }),
    {
        let ghost start = *self;
        let mut i: usize = 8;
        while i < self.size
            invariant
                self.wf(),
                self.size == start.size,
                self.grid.quiet_zone == start.grid.quiet_zone,
                start.wf(),
                8 <= i <= self.size + 1,
                i % 2 == 0,
                forall|x: int, y: int|
                    0 <= x < self.size && 0 <= y < self.size ==> #[trigger] self.at(x, y) == (if timing_spec(x, y)
                        && x < i && y < i { true } else { start.at(x, y) }),
            decreases self.size + 1 - i,
        {
            let ghost g0 = self.grid;
            let ghost cb = *self;
            self.grid.set(i, 0, true);
            let ghost g1 = self.grid;
            self.grid.set(0, i, true);
            proof {
                lemma_set_at(g0, g1, i as int, 0, true);
                lemma_set_at(g1, self.grid, 0, i as int, true);
                assert forall|x: int, y: int| 0 <= x < self.size && 0 <= y < self.size implies #[trigger] self.at(x, y)
                    == (if timing_spec(x, y) && x < i + 2 && y < i + 2 { true } else { start.at(x, y) }) by {
                    if !(x == 0 && y == i) {
                        assert(self.grid.at(x, y) == g1.at(x, y));
                        if !(x == i && y == 0) {
                            assert(g1.at(x, y) == g0.at(x, y));
                            assert(cb.at(x, y) == g0.at(x, y));
                        }
                    }
                }
            }
            i = i + 2;
        }
    }

    /// The ordered data-module coordinates: the zig-zag walk with the function
    /// modules left out.
    pub fn data_path(&self) -> (path: Vec<(usize, usize)>)
        requires
            self.wf(),
        ensures
            path@.len() == path_prefix(self.size as int, walk_len(self.size as int) as nat).len(),
            forall|k: int| 0 <= k < path@.len() ==> (#[trigger] path@[k]).0 as int == path_prefix(
                self.size as int,
                walk_len(self.size as int) as nat,
            )[k].0 && path@[k].1 as int == path_prefix(self.size as int, walk_len(self.size as int) as nat)[k].1,
            forall|k: int| 0 <= k < path@.len() ==> (#[trigger] path@[k]).0 < self.size && path@[k].1 < self.size,
    {
        let size = self.size;
        let strips = (size - 1) / 2;
        let two = 2 * size;
        assert(strips * two <= 8 * 34) by (nonlinear_arith)
            requires
                strips <= 8,
                two <= 34,
        ;
        let total = strips * two;
        let mut path: Vec<(usize, usize)> = Vec::new();
        let mut t: usize = 0;
        while t < total
            invariant
                11 <= size <= 17,
                size % 2 == 1,
                size == self.size,
                strips == (size - 1) / 2,
                two == 2 * size,
                total == strips * two,
                total == walk_len(size as int),
                t <= total,
                path@.len() == path_prefix(size as int, t as nat).len(),
                forall|k: int| 0 <= k < path@.len() ==> (#[trigger] path@[k]).0 as int == path_prefix(size as int, t as nat)[k].0
                    && path@[k].1 as int == path_prefix(size as int, t as nat)[k].1,
                forall|k: int| 0 <= k < path@.len() ==> (#[trigger] path@[k]).0 < size && path@[k].1 < size,
            decreases total - t,
        {
            let s = t / two;
            let u = t % two;
            let row = u / 2;
            let left = u % 2 == 1;
            proof {
                assert(s < strips) by (nonlinear_arith)
                    requires
                        s == t / two,
                        t < strips * two,
                        two >= 1,
                ;
                assert(u < two);
                assert(row < size);
            }
            let col = size - 1 - 2 * s;
            let y = if s % 2 == 0 { size - 1 - row } else { row };
            let x = if left { col - 1 } else { col };
            let ghost before = path@;
            if !is_function_module(x, y) {
                path.push((x, y));
            }
            proof {
                assert(zigzag(size as int, t as int) == (x as int, y as int));
                assert forall|k: int| 0 <= k < path@.len() implies (#[trigger] path@[k]).0 as int == path_prefix(
                    size as int,
                    (t + 1) as nat,
                )[k].0 && path@[k].1 as int == path_prefix(size as int, (t + 1) as nat)[k].1 by {
                    if k < before.len() {
                        assert(path@[k] == before[k]);
                    }
                }
            }
            t = t + 1;
        }
        path
    }

    /// Whether the mask flips the module at `(x, y)`.
    pub fn mask_bit(mask: MicroMask, x: usize, y: usize) -> (r: bool)
        requires
            x < 100,
            y < 100,
        ensures
            r == mask_spec(mask.idx(), x as int, y as int),
    {
        let i = y;
        let j = x;
        let m = mask.index();
        assert(i * j < 10000) by (nonlinear_arith)
            requires
                i < 100,
                j < 100,
        ;
        if m == 0 {
            i % 2 == 0
        } else if m == 1 {
            (i / 2 + j / 3) % 2 == 0
        } else if m == 2 {
            ((i * j) % 2 + (i * j) % 3) % 2 == 0
        } else {
            ((i + j) % 2 + (i * j) % 3) % 2 == 0
        }
    }

    /// XOR the mask pattern across all data modules.
    pub fn apply_mask(&mut self, mask: MicroMask)
        requires
            old(self).wf(),
        ensures
            final(self).wf(),
            final(self).size == old(self).size,
            forall|x: int, y: int| 0 <= x < old(self).size && 0 <= y < old(self).size ==> #[trigger] final(self).at(x, y)
                == (old(self).at(x, y) != (mask_spec(mask.idx(), x, y) && !is_function_spec(x, y))),
    {
        let size = self.size;
        let mut y: usize = 0;
        while y < size
            invariant
                self.wf(),
                size == self.size,
                self.size == old(self).size,
                y <= size,
                forall|x2: int, y2: int| 0 <= x2 < size && 0 <= y2 < y ==> #[trigger] self.grid.at(x2, y2) == (old(self).grid.at(x2, y2)
                    != (mask_spec(mask.idx(), x2, y2) && !is_function_spec(x2, y2))),
                forall|x2: int, y2: int| 0 <= x2 < size && y <= y2 < size ==> #[trigger] self.grid.at(x2, y2) == old(self).grid.at(x2, y2),
            decreases size - y,
        {
            let mut x: usize = 0;
            while x < size
                invariant
                    self.wf(),
                    size == self.size,
                    self.size == old(self).size,
                    y < size,
                    x <= size,
                    forall|x2: int, y2: int| 0 <= x2 < size && 0 <= y2 < y ==> #[trigger] self.grid.at(x2, y2) == (old(self).grid.at(
                        x2,
                        y2,
                    ) != (mask_spec(mask.idx(), x2, y2) && !is_function_spec(x2, y2))),
                    forall|x2: int| 0 <= x2 < x ==> #[trigger] self.grid.at(x2, y as int) == (old(self).grid.at(x2, y as int) != (
                    mask_spec(mask.idx(), x2, y as int) && !is_function_spec(x2, y as int))),
                    forall|x2: int, y2: int| 0 <= x2 < size && y < y2 < size ==> #[trigger] self.grid.at(x2, y2) == old(self).grid.at(x2, y2),
                    forall|x2: int| x <= x2 < size ==> #[trigger] self.grid.at(x2, y as int) == old(self).grid.at(x2, y as int),
                decreases size - x,
            {
                if Canvas::mask_bit(mask, x, y) && !is_function_module(x, y) {
                    let v = self.grid.get(x, y);
                    assert(self.grid.at(x as int, y as int) == old(self).grid.at(x as int, y as int));
                    let ghost before = self.grid;
                    self.grid.set(x, y, !v);
                    proof {
                        lemma_set_at(before, self.grid, x as int, y as int, !v);
                        assert(self.grid.at(x as int, y as int) == (old(self).grid.at(x as int, y as int) != (mask_spec(
                            mask.idx(),
                            x as int,
                            y as int,
                        ) && !is_function_spec(x as int, y as int))));
                    }
                } else {
                    assert(self.grid.at(x as int, y as int) == (old(self).grid.at(x as int, y as int) != (mask_spec(
                        mask.idx(),
                        x as int,
                        y as int,
                    ) && !is_function_spec(x as int, y as int))));
                }
                x = x + 1;
            }
            y = y + 1;
        }
    }

    /// Stamp the 15-bit format information for `symbol_number` and `mask`: bits 0–7
    /// down column 8, bits 14–7 along row 8.
    pub fn place_format(&mut self, symbol_number: u8, mask: MicroMask)
        requires
            old(self).wf(),
        ensures
            final(self).wf(),
            final(self).size == old(self).size,
            final(self).grid.quiet_zone == old(self).grid.quiet_zone,
            forall|x: int, y: int|
                0 <= x < final(self).size && 0 <= y < final(self).size ==> #[trigger] final(self).at(x, y) == format_module(
                    format_spec(symbol_number, mask.idx()),
                    x,
                    y,
                    old(self).at(x, y),
                ),
    {
        let ghost start = *self;
        let bits = format_bits(symbol_number, mask.index());
        let mut i: usize = 0;
        while i < 8
            invariant
                self.wf(),
                self.size == start.size,
                self.grid.quiet_zone == start.grid.quiet_zone,
                start.wf(),
                i <= 8,
                bits == format_spec(symbol_number, mask.idx()),
                forall|x: int, y: int|
                    0 <= x < self.size && 0 <= y < self.size ==> #[trigger] self.at(x, y) == (if (x == 8 && 1 <= y
                        <= i) || (y == 8 && 1 <= x <= i) { format_module(bits, x, y, false) } else { start.at(x, y) }),
            decreases 8 - i,
        {
            let ghost g0 = self.grid;
            let ghost cb = *self;
            self.grid.set(8, 1 + i, (bits >> (i as u16)) & 1 != 0);
            let ghost g1 = self.grid;
            self.grid.set(1 + i, 8, (bits >> ((14 - i) as u16)) & 1 != 0);
            proof {
                lemma_set_at(g0, g1, 8, 1 + i as int, (bits >> (i as u16)) & 1 != 0);
                lemma_set_at(g1, self.grid, 1 + i as int, 8, (bits >> ((14 - i) as u16)) & 1 != 0);
                assert forall|x: int, y: int| 0 <= x < self.size && 0 <= y < self.size implies #[trigger] self.at(x, y)
                    == (if (x == 8 && 1 <= y <= i + 1) || (y == 8 && 1 <= x <= i + 1) {
                        format_module(bits, x, y, false)
                    } else {
                        start.at(x, y)
                    }) by {
                    if !(x == 1 + i && y == 8) {
                        assert(self.grid.at(x, y) == g1.at(x, y));
                        if !(x == 8 && y == 1 + i) {
                            assert(g1.at(x, y) == g0.at(x, y));
                            assert(cb.at(x, y) == g0.at(x, y));
                        }
                    }
                }
            }
            i = i + 1;
        }
    }

    /// Write one data bit into the module at `(x, y)`.
    pub fn place_data_bit(&mut self, x: usize, y: usize, dark: bool)
        requires
            old(self).wf(),
            x < old(self).size,
            y < old(self).size,
        ensures
            final(self).wf(),
            final(self).size == old(self).size,
            final(self).at(x as int, y as int) == dark,
    {
        let ghost before = self.grid;
        self.grid.set(x, y, dark);
        proof {
            lemma_set_at(before, self.grid, x as int, y as int, dark);
        }
    }

    /// The Micro QR mask evaluation score (higher is better): with `sum1` the dark
    /// modules of the right column and `sum2` those of the bottom row (the corner
    /// row/column excluded), `16 · min + max`.
    pub fn evaluate(&self) -> (r: u32)
        requires
            self.wf(),
        ensures
            r == eval_spec(edge_count(self.grid, self.size as int, true, self.size as int), edge_count(
                self.grid,
                self.size as int,
                false,
                self.size as int,
            )),
    {
        let s = self.size;
        let mut sum1: u32 = 0;
        let mut sum2: u32 = 0;
        let mut k: usize = 1;
        while k < s
            invariant
                self.wf(),
                s == self.size,
                1 <= k <= s,
                sum1 == edge_count(self.grid, s as int, true, k as int),
                sum2 == edge_count(self.grid, s as int, false, k as int),
                sum1 < k,
                sum2 < k,
            decreases s - k,
        {
            if self.get(s - 1, k) {
                sum1 = sum1 + 1;
            }
            if self.get(k, s - 1) {
                sum2 = sum2 + 1;
            }
            k = k + 1;
        }
        if sum1 <= sum2 {
            sum1 * 16 + sum2
        } else {
            sum2 * 16 + sum1
        }
    }

    /// Read the format information and decode it to `(symbol_number, mask)`: bits
    /// 0–7 from column 8, bits 14–8 from row 8.
    pub fn read_format(&self) -> (r: Option<(u8, u8)>)
        requires
            self.wf(),
        ensures
            r matches Some((s, m)) ==> s < 8 && m < 4 && hamming16(format_spec(s, m), self.format_raw()) <= 3
                && forall|s2: u8, m2: u8| s2 < 8 && m2 < 4 ==> hamming16(format_spec(s, m), self.format_raw()) <= hamming16(
                    format_spec(s2, m2),
                    self.format_raw(),
                ),
            r is None ==> forall|s2: u8, m2: u8| s2 < 8 && m2 < 4 ==> hamming16(format_spec(s2, m2), self.format_raw()) > 3,
    {
        let mut raw: u32 = 0;
        let mut i: usize = 0;
        while i < 8
            invariant
                self.wf(),
                i <= 8,
                raw == raw_part(*self, i as nat, 0),
                raw < p2_32(i as nat),
            decreases 8 - i,
        {
            proof {
                assert(p2_32((i + 1) as nat) == 2 * p2_32(i as nat));
                lemma_p2_32_le(i as nat);
            }
            if self.get(8, 1 + i) {
                raw = raw + pw2(i);
            }
            i = i + 1;
        }
        proof {
            assert(p2_32(15) == 32768) by {
                reveal_with_fuel(p2_32, 16);
            }
            assert(p2_32(8) == 256) by {
                reveal_with_fuel(p2_32, 9);
            }
        }
        let mut j: usize = 0;
        while j < 7
            invariant
                self.wf(),
                j <= 7,
                raw == raw_part(*self, 8, j as nat),
                raw + p2_32((15 - j) as nat) <= 255 + 32768,
            decreases 7 - j,
        {
            proof {
                assert(p2_32((15 - j) as nat) == 2 * p2_32((14 - j) as nat));
            }
            if self.get(1 + j, 8) {
                raw = raw + pw2(14 - j);
            }
            j = j + 1;
        }
        decode_format(raw as u16)
    }

    /// The raw 15-bit format word as read.
    pub open spec fn format_raw(&self) -> u16
        recommends
            raw_part(*self, 8, 7) < 65536,
    {
        raw_part(*self, 8, 7) as u16
    }
}

/// `2^n`.
pub open spec fn p2_32(n: nat) -> nat
    decreases n,
{
    if n == 0 {
        1
    } else {
        2 * p2_32((n - 1) as nat)
    }
}

/// `2^n` for `n < 16`.
fn pw2(n: usize) -> (r: u32)
    requires
        n < 16,
    ensures
        r == p2_32(n as nat),
{
    let mut r: u32 = 1;
    let mut k: usize = 0;
    while k < n
        invariant
            k <= n,
            n < 16,
            r == p2_32(k as nat),
            r <= 32768,
        decreases n - k,
    {
        proof {
            assert(p2_32((k + 1) as nat) == 2 * p2_32(k as nat));
            lemma_p2_32_le(k as nat);
        }
        r = r * 2;
        k = k + 1;
    }
    r
}

/// `2^n ≤ 2^14` for `n < 15`.
proof fn lemma_p2_32_le(n: nat)
    requires
        n < 15,
    ensures
        p2_32(n) <= 16384,
    decreases 15 - n,
{
    if n < 14 {
        lemma_p2_32_le(n + 1);
    } else {
        reveal_with_fuel(p2_32, 15);
    }
}

/// The format word accumulated from the first `i` bits of column 8 and the first `j`
/// bits of row 8.
pub open spec fn raw_part(c: Canvas, i: nat, j: nat) -> int
    decreases i + j,
{
    if j > 0 {
        raw_part(c, i, (j - 1) as nat) + if c.at(j as int, 8) { p2_32((14 - (j - 1)) as nat) as int } else { 0int }
    } else if i > 0 {
        raw_part(c, (i - 1) as nat, 0) + if c.at(8, i as int) { p2_32((i - 1) as nat) as int } else { 0int }
    } else {
        0
    }
}

/// Dark modules among the first `k − 1` cells (from index 1) of the right column
/// (`right`) or the bottom row.
pub open spec fn edge_count(g: BitMatrix, s: int, right: bool, k: int) -> int
    decreases k,
{
    if k <= 1 {
        0
    } else {
        edge_count(g, s, right, k - 1) + if (if right { g.at(s - 1, k - 1) } else { g.at(k - 1, s - 1) }) {
            1int
        } else {
            0int
        }
    }
}

/// `16 · min(a, b) + max(a, b)`, `a` weighted first on ties.
pub open spec fn eval_spec(a: int, b: int) -> int {
    if a <= b { a * 16 + b } else { b * 16 + a }
}

/// Setting one module changes it and nothing else.
pub proof fn lemma_set_at(before: BitMatrix, after: BitMatrix, x: int, y: int, v: bool)
    requires
        before.wf(),
        0 <= x < before.width,
        0 <= y < before.height,
        after.width == before.width,
        after.height == before.height,
        after.bits@ == before.bits@.update(y * before.width + x, v),
    ensures
        after.wf(),
        after.at(x, y) == v,
        forall|x2: int, y2: int| 0 <= x2 < before.width && 0 <= y2 < before.height && (x2 != x || y2 != y)
            ==> #[trigger] after.at(x2, y2) == before.at(x2, y2),
{
    let w = before.width as int;
    let h = before.height as int;
    assert(0 <= y * w + x < w * h) by (nonlinear_arith)
        requires
            0 <= x < w,
            0 <= y < h,
    ;
    assert forall|x2: int, y2: int| 0 <= x2 < w && 0 <= y2 < h && (x2 != x || y2 != y) implies #[trigger] after.at(x2, y2)
        == before.at(x2, y2) by {
        assert(0 <= y2 * w + x2 < w * h) by (nonlinear_arith)
            requires
                0 <= x2 < w,
                0 <= y2 < h,
        ;
        assert(y2 * w + x2 != y * w + x) by (nonlinear_arith)
            requires
                0 <= x < w,
                0 <= x2 < w,
                x2 != x || y2 != y,
        ;
    }
}

/// Applying a mask twice restores every module.
pub proof fn lemma_mask_involution(before: Canvas, once: Canvas, twice: Canvas, mask: MicroMask)
    requires
        before.wf(),
        once.size == before.size,
        twice.size == before.size,
        forall|x: int, y: int| 0 <= x < before.size && 0 <= y < before.size ==> #[trigger] once.at(x, y) == (before.at(x, y)
            != (mask_spec(mask.idx(), x, y) && !is_function_spec(x, y))),
        forall|x: int, y: int| 0 <= x < once.size && 0 <= y < once.size ==> #[trigger] twice.at(x, y) == (once.at(x, y) != (
        mask_spec(mask.idx(), x, y) && !is_function_spec(x, y))),
    ensures
        forall|x: int, y: int| 0 <= x < before.size && 0 <= y < before.size ==> #[trigger] twice.at(x, y) == before.at(x, y),
{
    assert forall|x: int, y: int| 0 <= x < before.size && 0 <= y < before.size implies #[trigger] twice.at(x, y)
        == before.at(x, y) by {
        assert(once.at(x, y) == (before.at(x, y) != (mask_spec(mask.idx(), x, y) && !is_function_spec(x, y))));
    }
}

} // verus!
