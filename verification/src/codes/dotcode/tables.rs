//! Static tables for DotCode: the 9-bit symbol-character dot patterns, their reverse
//! lookup, and the geometry of the reserved corner dots.
//!
//! Each of the 113 codeword values (`0..=112`) maps to a 9-bit pattern (AIM ISS
//! DotCode Rev 4.0 Annex C); the pattern's bits are written most-significant-first
//! into the dot stream.
use vstd::prelude::*;

verus! {

/// The DotCode Galois field prime.
pub const DC_GF: u16 = 113;

/// Latch to Code Set A (from C), or Shift A (from B).
pub const LATCH_A: u8 = 101;
/// Latch A (from B) / Latch B (from A).
pub const LATCH_B_FROM_A: u8 = 102;
/// Latch B (from C) / Latch C (from A or B); also the pad codeword.
pub const LATCH_BC: u8 = 106;
/// Function character 1.
pub const FNC1: u8 = 107;
/// Function character 2 (ECI designator).
pub const FNC2: u8 = 108;
/// Reader Initialisation, or binary-terminate-latch-A.
pub const FNC3: u8 = 109;
/// Upper Shift A, or binary-terminate-latch-B.
pub const UPPER_SHIFT_A: u8 = 110;
/// Upper Shift B, or binary-terminate-latch-C.
pub const UPPER_SHIFT_B: u8 = 111;
/// Latch to binary mode.
pub const BIN_LATCH: u8 = 112;

/// DotCode symbol-character dot patterns: index = codeword value, value = 9-bit
/// dot pattern.
pub const DC_DOT_PATTERNS: [u16; 113] = [
    0x155, 0x0ab, 0x0ad, 0x0b5, 0x0d5, 0x156, 0x15a, 0x16a, 0x1aa, 0x0ae, 0x0b6, 0x0ba, 0x0d6,
    0x0da, 0x0ea, 0x12b, 0x12d, 0x135, 0x14b, 0x14d, 0x153, 0x159, 0x165, 0x169, 0x195, 0x1a5,
    0x1a9, 0x057, 0x05b, 0x05d, 0x06b, 0x06d, 0x075, 0x097, 0x09b, 0x09d, 0x0a7, 0x0b3, 0x0b9,
    0x0cb, 0x0cd, 0x0d3, 0x0d9, 0x0e5, 0x0e9, 0x12e, 0x136, 0x13a, 0x14e, 0x15c, 0x166, 0x16c,
    0x172, 0x174, 0x196, 0x19a, 0x1a6, 0x1ac, 0x1b2, 0x1b4, 0x1ca, 0x1d2, 0x1d4, 0x05e, 0x06e,
    0x076, 0x07a, 0x09e, 0x0bc, 0x0ce, 0x0dc, 0x0e6, 0x0ec, 0x0f2, 0x0f4, 0x117, 0x11b, 0x11d,
    0x127, 0x133, 0x139, 0x147, 0x163, 0x171, 0x18b, 0x18d, 0x193, 0x199, 0x1a3, 0x1b1, 0x1c5,
    0x1c9, 0x1d1, 0x02f, 0x037, 0x03b, 0x03d, 0x04f, 0x067, 0x073, 0x079, 0x08f, 0x0c7, 0x0e3,
    0x0f1, 0x11e, 0x13c, 0x178, 0x18e, 0x19c, 0x1b8, 0x1c6, 0x1cc,
];

/// Reverse of [`DC_DOT_PATTERNS`]: recover the codeword value for a 9-bit pattern.
///
/// Returns `None` for patterns that are not valid DotCode symbol characters (e.g.
/// the all-ones pad pattern `0x1ff`).
pub fn codeword_for_pattern(pattern: u16) -> (r: Option<u8>)
    ensures
        r matches Some(i) ==> i < 113 && DC_DOT_PATTERNS@[i as int] == pattern
            && forall|j: int| 0 <= j < i ==> DC_DOT_PATTERNS@[j] != pattern,
        r is None ==> forall|j: int| 0 <= j < 113 ==> DC_DOT_PATTERNS@[j] != pattern,
{
    let t = DC_DOT_PATTERNS;
    let mut i: usize = 0;
    while i < 113
        invariant
            i <= 113,
            t@ == DC_DOT_PATTERNS@,
            forall|j: int| 0 <= j < i ==> DC_DOT_PATTERNS@[j] != pattern,
        decreases 113 - i,
    {
        if t[i] == pattern {
            return Some(i as u8);
        }
        i = i + 1;
    }
    None
}


/// `(column, row)` is one of the reserved corner dots of a `width × height` symbol.
pub open spec fn is_corner_spec(column: int, row: int, width: int, height: int) -> bool {
    ||| (column == 0 && row == 0)
    ||| (height % 2 == 1 && ((column == width - 2 && row == 0) || (column == width - 1 && row == 1)
        || (column == 0 && row == height - 1)))
    ||| (height % 2 == 0 && ((column == width - 1 && row == 0) || (column == 0 && row == height - 2)
        || (column == 1 && row == height - 1)))
    ||| (column == width - 2 && row == height - 1)
    ||| (column == width - 1 && row == height - 2)
}

/// Is `(column, row)` a reserved corner dot (holds one of the final six bits)?
pub fn is_corner(column: usize, row: usize, width: usize, height: usize) -> (r: bool)
    requires
        width >= 2,
        height >= 2,
    ensures
        r == is_corner_spec(column as int, row as int, width as int, height as int),
{
    if column == 0 && row == 0 {
        return true;
    }
    if height % 2 == 1 {
        if (column == width - 2 && row == 0) || (column == width - 1 && row == 1) {
            return true;
        }
        if column == 0 && row == height - 1 {
            return true;
        }
    } else {
        if column == width - 1 && row == 0 {
            return true;
        }
        if (column == 0 && row == height - 2) || (column == 1 && row == height - 1) {
            return true;
        }
    }
    (column == width - 2 && row == height - 1) || (column == width - 1 && row == height - 2)
}

/// Row-major grid indices of the six reserved corner dots.
pub open spec fn corner_indices_spec(width: int, height: int) -> Seq<int> {
    if height % 2 == 1 {
        seq![0, width - 2, width * 2 - 1, (height - 1) * width - 1, (height - 1) * width, height * width - 2]
    } else {
        seq![0, width - 1, (height - 2) * width, (height - 1) * width - 1, (height - 1) * width + 1, height * width - 2]
    }
}

/// Row-major grid indices of the six reserved corner dots.
pub fn corner_indices(width: usize, height: usize) -> (r: [usize; 6])
    requires
        width >= 2,
        height >= 2,
        width * height <= usize::MAX,
    ensures
        forall|i: int| 0 <= i < 6 ==> r@[i] == #[trigger] corner_indices_spec(width as int, height as int)[i],
{
    assert((height - 1) * width + width == height * width && (height - 2) * width + 2 * width == height * width
        && width * 2 <= height * width && height * width == width * height && (height - 2) * width >= 0) by (nonlinear_arith)
        requires
            width >= 2,
            height >= 2,
    ;
    let hw = height * width;
    let h1w = (height - 1) * width;
    let h2w = (height - 2) * width;
    if height % 2 == 1 {
        [0, width - 2, width * 2 - 1, h1w - 1, h1w, hw - 2]
    } else {
        [0, width - 1, h2w, h1w - 1, h1w + 1, hw - 2]
    }
}

/// Dots needed for `data_length` data codewords.
pub open spec fn min_dots_spec(data_length: int) -> int {
    9 * (data_length + 3 + data_length / 2) + 2
}

/// Dots needed for `data_length` data codewords: the two mask bits plus nine per data
/// and check codeword (`3 + data_length / 2` check codewords).
pub fn min_dots_for(data_length: usize) -> (n: usize)
    requires
        data_length <= 0x0fff_ffff,
    ensures
        n == min_dots_spec(data_length as int),
{
    9 * (data_length + 3 + data_length / 2) + 2
}

/// The number of data codewords a `width × height` symbol carries: the most that
/// fit, since an encoder turns every spare group of dots that can hold another
/// codeword into a pad codeword. `None` if not even one fits.
pub fn data_length_for_size(width: usize, height: usize) -> (r: Option<usize>)
    requires
        width * height <= 0x0fff_ffff,
    ensures
        r matches Some(d) ==> d >= 1 && min_dots_spec(d as int) <= (width * height) / 2
            && min_dots_spec(d + 1) > (width * height) / 2,
        r is None ==> min_dots_spec(1) > (width * height) / 2,
{
    let n_dots = (width * height) / 2;
    if min_dots_for(1) > n_dots {
        return None;
    }
    let mut dl: usize = 1;
    while min_dots_for(dl + 1) <= n_dots
        invariant
            1 <= dl,
            n_dots <= 0x07ff_ffff,
            min_dots_spec(dl as int) <= n_dots,
            dl <= n_dots,
        decreases n_dots - dl,
    {
        dl = dl + 1;
    }
    Some(dl)
}

/// Column and row of the `t`-th cell visited when folding the dot stream: row by
/// row for an odd height, column by column for an even one.
pub open spec fn visit_cell(w: int, h: int, t: int) -> (int, int) {
    if h % 2 == 1 {
        (t % w, t / w)
    } else {
        (t / h, t % h)
    }
}

/// Row-major grid index where the `t`-th visited cell is stored (rows are stored
/// upside down for an odd height).
pub open spec fn visit_index(w: int, h: int, t: int) -> int {
    let (c, r) = visit_cell(w, h, t);
    if h % 2 == 1 {
        (h - r - 1) * w + c
    } else {
        r * w + c
    }
}

/// The `t`-th visited cell carries a data dot: it is on the checkerboard and not a
/// reserved corner.
pub open spec fn data_cell(w: int, h: int, t: int) -> bool {
    let (c, r) = visit_cell(w, h, t);
    (c + r) % 2 == 0 && !is_corner_spec(c, r, w, h)
}

/// How many data cells come before the `t`-th visited cell.
pub open spec fn data_rank(w: int, h: int, t: int) -> nat
    decreases t,
{
    if t <= 0 {
        0
    } else {
        data_rank(w, h, t - 1) + if data_cell(w, h, t - 1) { 1nat } else { 0nat }
    }
}

/// Grid indices that receive the final six stream bits, in stream order (`hw` is
/// `h · w`).
pub open spec fn corner_slots(w: int, h: int, hw: int) -> Seq<int> {
    if h % 2 == 1 {
        seq![w - 2, hw - 2, w * 2 - 1, hw - w - 1, 0, hw - w]
    } else {
        seq![hw - w - 1, hw - 2 * w, hw - 2, hw - w + 1, w - 1, 0]
    }
}

/// Bit `k` of `s`, light past its end.
pub open spec fn sget(s: Seq<bool>, k: int) -> bool {
    if 0 <= k < s.len() {
        s[k]
    } else {
        false
    }
}

/// Distinct visits store to distinct grid indices, inside the grid.
pub proof fn lemma_visit_index(w: int, h: int, t1: int, t2: int)
    requires
        w >= 1,
        h >= 1,
        0 <= t1 < w * h,
        0 <= t2 < w * h,
    ensures
        0 <= visit_index(w, h, t1) < w * h,
        t1 != t2 ==> visit_index(w, h, t1) != visit_index(w, h, t2),
{
    if h % 2 == 1 {
        let (c1, r1) = (t1 % w, t1 / w);
        let (c2, r2) = (t2 % w, t2 / w);
        assert(0 <= r1 < h && 0 <= r2 < h) by (nonlinear_arith)
            requires
                w >= 1,
                0 <= t1 < w * h,
                0 <= t2 < w * h,
                r1 == t1 / w,
                r2 == t2 / w,
        ;
        assert(t1 == r1 * w + c1 && t2 == r2 * w + c2) by (nonlinear_arith)
            requires
                w >= 1,
                r1 == t1 / w,
                r2 == t2 / w,
                c1 == t1 % w,
                c2 == t2 % w,
        ;
        assert(0 <= (h - r1 - 1) * w + c1 < w * h) by (nonlinear_arith)
            requires
                0 <= c1 < w,
                0 <= r1 < h,
        ;
        if t1 != t2 {
            assert((h - r1 - 1) * w + c1 != (h - r2 - 1) * w + c2) by (nonlinear_arith)
                requires
                    0 <= c1 < w,
                    0 <= c2 < w,
                    r1 * w + c1 != r2 * w + c2,
            ;
        }
    } else {
        let (c1, r1) = (t1 / h, t1 % h);
        let (c2, r2) = (t2 / h, t2 % h);
        assert(0 <= c1 < w && 0 <= c2 < w) by (nonlinear_arith)
            requires
                h >= 1,
                0 <= t1 < w * h,
                0 <= t2 < w * h,
                c1 == t1 / h,
                c2 == t2 / h,
        ;
        assert(t1 == c1 * h + r1 && t2 == c2 * h + r2) by (nonlinear_arith)
            requires
                h >= 1,
                c1 == t1 / h,
                c2 == t2 / h,
                r1 == t1 % h,
                r2 == t2 % h,
        ;
        assert(0 <= r1 * w + c1 < w * h) by (nonlinear_arith)
            requires
                0 <= c1 < w,
                0 <= r1 < h,
        ;
        if t1 != t2 {
            assert(r1 * w + c1 != r2 * w + c2) by (nonlinear_arith)
                requires
                    0 <= c1 < w,
                    0 <= c2 < w,
                    0 <= r1 < h,
                    0 <= r2 < h,
                    c1 * h + r1 != c2 * h + r2,
            ;
        }
    }
}

} // verus!
