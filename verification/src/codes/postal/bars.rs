//! Postal bars and their 3-row module grid.
//!
//! A bar occupies an even column; the odd columns between bars are light. Row 0 is
//! the ascender band, row 1 the tracker band (dark for every bar), row 2 the
//! descender band. `N` bars give a `(2N − 1) × 3` grid.
use vstd::prelude::*;
use crate::error::Error;
use crate::output::BitMatrix;

verus! {

/// The state of one postal bar.
#[derive(Debug, Clone, Copy, PartialEq, Eq, Structural)]
pub enum BarState {
    /// Tracker only.
    Tracker,
    /// Ascender and tracker (a tall bar of the 2-state codes).
    Ascender,
    /// Descender and tracker.
    Descender,
    /// Ascender, tracker and descender.
    Full,
}

/// The bar with the given extensions.
pub open spec fn bar_of(ascender: bool, descender: bool) -> BarState {
    if ascender && descender {
        BarState::Full
    } else if ascender {
        BarState::Ascender
    } else if descender {
        BarState::Descender
    } else {
        BarState::Tracker
    }
}

/// The bar reaches into the ascender band.
pub open spec fn asc(b: BarState) -> bool {
    b is Ascender || b is Full
}

/// The bar reaches into the descender band.
pub open spec fn desc(b: BarState) -> bool {
    b is Descender || b is Full
}

impl BarState {
    /// Build a state from the presence of an ascender and a descender.
    pub fn from_parts(ascender: bool, descender: bool) -> (b: BarState)
        ensures
            b == bar_of(ascender, descender),
    {
        if ascender && descender {
            BarState::Full
        } else if ascender {
            BarState::Ascender
        } else if descender {
            BarState::Descender
        } else {
            BarState::Tracker
        }
    }

    /// Whether the ascender band is dark.
    pub fn has_ascender(self) -> (r: bool)
        ensures
            r == asc(self),
    {
        match self {
            BarState::Ascender | BarState::Full => true,
            _ => false,
        }
    }

    /// Whether the descender band is dark.
    pub fn has_descender(self) -> (r: bool)
        ensures
            r == desc(self),
    {
        match self {
            BarState::Descender | BarState::Full => true,
            _ => false,
        }
    }
}

/// Number of module rows in a postal grid.
pub const ROWS: usize = 3;

/// The nominal quiet zone of a postal grid.
pub const QUIET: usize = 0;

/// The module at column `x`, row `y` of the grid of `bars`.
pub open spec fn postal_module(bars: Seq<BarState>, x: int, y: int) -> bool {
    x % 2 == 0 && (y == 1 || (y == 0 && asc(bars[x / 2])) || (y == 2 && desc(bars[x / 2])))
}

/// Render bars into the 3-row grid.
pub fn bars_to_matrix(bars: &[BarState]) -> (m: BitMatrix)
    requires
        bars@.len() <= 0x1000_0000,
    ensures
        m.wf(),
        m.width == (if bars@.len() == 0 { 0 } else { 2 * bars@.len() - 1 }),
        m.height == ROWS,
        m.quiet_zone == QUIET,
        forall|x: int, y: int|
            0 <= x < m.width && 0 <= y < 3 ==> #[trigger] m.at(x, y) == postal_module(bars@, x, y),
{
    let n = bars.len();
    let w: usize = if n == 0 { 0 } else { 2 * n - 1 };
    let mut bits: Vec<bool> = Vec::new();
    let mut y: usize = 0;
    while y < 3
        invariant
            n == bars@.len(),
            n <= 0x1000_0000,
            w == (if n == 0 { 0 } else { 2 * n - 1 }),
            y <= 3,
            bits@.len() == y * w,
            forall|yy: int, x: int|
                0 <= yy < y && 0 <= x < w ==> #[trigger] bits@[yy * w + x] == postal_module(bars@, x, yy),
        decreases 3 - y,
    {
        let mut x: usize = 0;
        let ghost base = bits@;
        while x < w
            invariant
                n == bars@.len(),
                n <= 0x1000_0000,
                w == (if n == 0 { 0 } else { 2 * n - 1 }),
                y < 3,
                x <= w,
                base.len() == y * w,
                bits@.len() == y * w + x,
                bits@.subrange(0, y * w) == base,
                forall|xx: int| 0 <= xx < x ==> #[trigger] bits@[y * w + xx] == postal_module(bars@, xx, y as int),
            decreases w - x,
        {
            let dark = if x % 2 == 0 {
                let b = bars[x / 2];
                y == 1 || (y == 0 && b.has_ascender()) || (y == 2 && b.has_descender())
            } else {
                false
            };
            bits.push(dark);
            proof {
                assert(bits@.subrange(0, y * w) =~= base);
            }
            x = x + 1;
        }
        proof {
            assert((y + 1) * w == y * w + w) by (nonlinear_arith);
            assert forall|yy: int, xx: int|
                0 <= yy < y + 1 && 0 <= xx < w implies #[trigger] bits@[yy * w + xx] == postal_module(bars@, xx, yy) by {
                if yy < y {
                    assert(yy * w + xx < y * w) by (nonlinear_arith)
                        requires
                            0 <= yy < y,
                            0 <= xx < w,
                    ;
                    assert(bits@[yy * w + xx] == base[yy * w + xx]);
                }
            }
        }
        y = y + 1;
    }
    BitMatrix { width: w, height: ROWS, quiet_zone: QUIET, bits }
}

/// The grid is a well-formed postal grid: three rows, an odd width, every bar's
/// tracker module dark and every gap column light.
pub open spec fn postal_grid_ok(m: BitMatrix) -> bool {
    &&& m.height == 3
    &&& m.width % 2 == 1
    &&& forall|x: int| 0 <= x < m.width && x % 2 == 0 ==> #[trigger] m.at(x, 1)
    &&& forall|x: int, y: int| 0 <= x < m.width && x % 2 == 1 && 0 <= y < 3 ==> !#[trigger] m.at(x, y)
}

/// Bar `i` read from the grid.
pub open spec fn bar_at(m: BitMatrix, i: int) -> BarState {
    bar_of(m.at(2 * i, 0), m.at(2 * i, 2))
}

/// Recover the bar sequence from a 3-row postal grid.
pub fn matrix_to_bars(m: &BitMatrix) -> (r: Result<Vec<BarState>, Error>)
    requires
        m.wf(),
    ensures
        postal_grid_ok(*m) ==> r is Ok && r->Ok_0@.len() == (m.width + 1) / 2 && forall|i: int|
            0 <= i < r->Ok_0@.len() ==> #[trigger] r->Ok_0@[i] == bar_at(*m, i),
        !postal_grid_ok(*m) ==> r == Err::<Vec<BarState>, Error>(Error::Undecodable),
{
    if m.height() != ROWS {
        return Err(Error::Undecodable);
    }
    let w = m.width();
    if w == 0 || w % 2 == 0 {
        return Err(Error::Undecodable);
    }
    let n = w / 2 + 1;
    let mut bars: Vec<BarState> = Vec::new();
    let mut i: usize = 0;
    while i < n
        invariant
            m.wf(),
            m.height == 3,
            w == m.width,
            w % 2 == 1,
            n == (w + 1) / 2,
            i <= n,
            bars@.len() == i,
            forall|k: int| 0 <= k < i ==> #[trigger] bars@[k] == bar_at(*m, k),
            forall|x: int| 0 <= x < 2 * i && x % 2 == 0 ==> #[trigger] m.at(x, 1),
            forall|x: int, y: int| 0 <= x < 2 * i && x < w && x % 2 == 1 && 0 <= y < 3 ==> !#[trigger] m.at(x, y),
        decreases n - i,
    {
        let col = i * 2;
        if !m.get(col, 1) {
            return Err(Error::Undecodable);
        }
        bars.push(BarState::from_parts(m.get(col, 0), m.get(col, 2)));
        let gap = col + 1;
        if gap < w && (m.get(gap, 0) || m.get(gap, 1) || m.get(gap, 2)) {
            return Err(Error::Undecodable);
        }
        proof {
            assert forall|x: int| 0 <= x < 2 * (i + 1) && x % 2 == 0 implies #[trigger] m.at(x, 1) by {
                if x >= 2 * i {
                    assert(x == col);
                }
            }
            assert forall|x: int, y: int| 0 <= x < 2 * (i + 1) && x < w && x % 2 == 1 && 0 <= y < 3 implies !#[trigger] m.at(x, y) by {
                if x >= 2 * i {
                    assert(x == gap);
                }
            }
        }
        i = i + 1;
    }
    Ok(bars)
}

/// Reading the grid of a bar sequence gives the sequence back.
pub proof fn lemma_bars_round_trip(bars: Seq<BarState>, m: BitMatrix)
    requires
        bars.len() > 0,
        m.wf(),
        m.width == 2 * bars.len() - 1,
        m.height == 3,
        forall|x: int, y: int| 0 <= x < m.width && 0 <= y < 3 ==> #[trigger] m.at(x, y) == postal_module(bars, x, y),
    ensures
        postal_grid_ok(m),
        (m.width + 1) / 2 == bars.len(),
        forall|i: int| 0 <= i < bars.len() ==> #[trigger] bar_at(m, i) == bars[i],
{
    assert forall|x: int| 0 <= x < m.width && x % 2 == 0 implies #[trigger] m.at(x, 1) by {
        assert(postal_module(bars, x, 1));
    }
    assert forall|i: int| 0 <= i < bars.len() implies #[trigger] bar_at(m, i) == bars[i] by {
        assert(m.at(2 * i, 0) == postal_module(bars, 2 * i, 0));
        assert(m.at(2 * i, 2) == postal_module(bars, 2 * i, 2));
        assert((2 * i) / 2 == i);
    }
}

} // verus!
