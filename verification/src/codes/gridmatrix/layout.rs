//! Grid Matrix module layout: the macromodule grid, the alternating frame pattern,
//! codeword placement, and the redundant layer-id metadata.
//!
//! Every 6×6 macromodule reserves its interior 4×4 (offset `(1,1)`) for a 2-bit
//! layer-id and 14 data bits (two 7-bit codewords); its perimeter is a frame that is
//! dark where `(x + y)` is even and light otherwise.
use vstd::prelude::*;
use crate::output::BitMatrix;
use super::tables::{EcLevel, Version, level_number};

verus! {

/// Quiet-zone width required around a Grid Matrix symbol, in modules.
pub const QUIET_ZONE: usize = 2;

/// Ring distance of macromodule `(x, y)` from the nearest edge of an `m × m` grid.
pub open spec fn edge_ring(m: int, x: int, y: int) -> int {
    if x < y {
        if x < m - y - 1 { x } else { m - y - 1 }
    } else if y < m - x - 1 {
        y
    } else {
        m - x - 1
    }
}

/// Codeword-pair index of macromodule `(x, y)`: macromodules are numbered ring by
/// ring from the outside in, clockwise from the left edge of each ring.
pub open spec fn mm_index_spec(m: int, x: int, y: int) -> int {
    let r = edge_ring(m, x, y);
    let mm = ((m - 1) / 2 - r) * 2 + 1;
    let b = mm * mm - 1;
    let idx = if x == r {
        b - y + r
    } else if y == r {
        b - (mm - 1) * 4 + (x - r)
    } else if x == m - r - 1 {
        b - (mm - 1) * 3 + (y - r)
    } else {
        b - (mm - 1) - (x - r)
    };
    idx * 2
}

/// Codeword-pair index for the macromodule at grid position `(x, y)`.
///
/// Returns the index of the *first* of the macromodule's two codewords in the
/// interleaved stream (the second is `+1`).
pub fn macromodule_index(mpd: usize, x: usize, y: usize) -> (r: usize)
    requires
        mpd <= 27,
        mpd % 2 == 1,
        x < mpd,
        y < mpd,
    ensures
        r == mm_index_spec(mpd as int, x as int, y as int),
{
    let m = mpd as i64;
    let x = x as i64;
    let y = y as i64;
    let r = if x < y {
        if x < m - y - 1 { x } else { m - y - 1 }
    } else if y < m - x - 1 {
        y
    } else {
        m - x - 1
    };
    let mm = ((m - 1) / 2 - r) * 2 + 1;
    assert(0 <= r <= 13 && 1 <= mm <= 27);
    assert(mm * mm <= 729) by (nonlinear_arith)
        requires
            1 <= mm <= 27,
    ;
    assert(mm * mm >= 1) by (nonlinear_arith)
        requires
            1 <= mm,
    ;
    let b = mm * mm - 1;
    let idx = if x == r {
        b - y + r
    } else if y == r {
        b - (mm - 1) * 4 + (x - r)
    } else if x == m - r - 1 {
        b - (mm - 1) * 3 + (y - r)
    } else {
        b - (mm - 1) - (x - r)
    };
    proof {
        lemma_mm_index_range(m as int, x as int, y as int);
    }
    (idx * 2) as usize
}

/// Macromodule pair indices are non-negative and below the codeword count.
proof fn lemma_mm_index_range(m: int, x: int, y: int)
    requires
        1 <= m <= 27,
        m % 2 == 1,
        0 <= x < m,
        0 <= y < m,
    ensures
        0 <= mm_index_spec(m, x, y),
        mm_index_spec(m, x, y) + 1 < 2 * m * m,
{
    let r = edge_ring(m, x, y);
    let h = (m - 1) / 2;
    assert(m - 1 == 2 * h);
    let mm = (h - r) * 2 + 1;
    assert(0 <= r && r <= x && r <= y && x <= m - 1 - r && y <= m - 1 - r);
    assert(r <= h);
    assert(mm == m - 2 * r);
    let b = mm * mm - 1;
    assert(mm * mm <= m * m) by (nonlinear_arith)
        requires
            1 <= mm <= m,
    ;
    assert(b - 4 * (mm - 1) == (mm - 2) * (mm - 2) - 1) by (nonlinear_arith)
        requires
            b == mm * mm - 1,
    ;
    assert((mm - 2) * (mm - 2) >= 1 || mm == 1) by (nonlinear_arith)
        requires
            mm >= 1,
            mm % 2 == 1,
    ;
    let idx = if x == r {
        b - y + r
    } else if y == r {
        b - (mm - 1) * 4 + (x - r)
    } else if x == m - r - 1 {
        b - (mm - 1) * 3 + (y - r)
    } else {
        b - (mm - 1) - (x - r)
    };
    if mm == 1 {
        assert(mm * mm == 1) by (nonlinear_arith)
            requires
                mm == 1,
        ;
        assert(x == r && y == r);
        assert(idx == 0);
    } else {
        assert(b - 4 * (mm - 1) <= idx <= b);
    }
    assert(mm_index_spec(m, x, y) == idx * 2);
    assert(2 * m * m == 2 * (m * m)) by (nonlinear_arith);
}

/// The layer-id of ring `i` at level number `ec`.
pub open spec fn layer_id_spec(i: int, ec: int) -> u8 {
    if ec == 1 { ((3 - (i % 4)) % 4) as u8 } else { ((i + 5 - ec) % 4) as u8 }
}

/// The layer-id values (one per concentric ring, index 0 = centre) for a symbol with
/// `layers` layers at EC level number `ec` (1–5).
pub fn layer_ids(layers: usize, ec: usize) -> (ids: Vec<u8>)
    requires
        layers <= 13,
        1 <= ec <= 5,
    ensures
        ids@.len() == layers + 1,
        forall|i: int| 0 <= i <= layers ==> #[trigger] ids@[i] == layer_id_spec(i, ec as int),
{
    let mut ids: Vec<u8> = Vec::new();
    let mut i: usize = 0;
    while i <= layers
        invariant
            i <= layers + 1,
            layers <= 13,
            1 <= ec <= 5,
            ids@.len() == i,
            forall|k: int| 0 <= k < i ==> #[trigger] ids@[k] == layer_id_spec(k, ec as int),
        decreases layers + 1 - i,
    {
        let v: u8 = if ec == 1 { ((3 - (i % 4)) % 4) as u8 } else { ((i + 5 - ec) % 4) as u8 };
        ids.push(v);
        i = i + 1;
    }
    ids
}

/// Chebyshev ring distance of macromodule `(x, y)` from the centre.
pub open spec fn ring_spec(layers: int, x: int, y: int) -> int {
    let dx = if x >= layers { x - layers } else { layers - x };
    let dy = if y >= layers { y - layers } else { layers - y };
    if dx >= dy { dx } else { dy }
}

/// Chebyshev ring distance of macromodule `(x, y)` from the centre.
fn ring_of(layers: usize, x: usize, y: usize) -> (r: usize)
    ensures
        r == ring_spec(layers as int, x as int, y as int),
{
    let dx = if x >= layers { x - layers } else { layers - x };
    let dy = if y >= layers { y - layers } else { layers - y };
    if dx >= dy { dx } else { dy }
}

/// Bit `k` of `v`.
pub open spec fn bit(v: int, k: int) -> bool {
    (v / (vstd::arithmetic::power2::pow2(k as nat) as int)) % 2 == 1
}

/// The 14-bit macromodule value of the codeword pair at `idx`.
pub open spec fn pair_value(cws: Seq<u8>, idx: int) -> int {
    (cws[idx + 1] % 128) * 128 + cws[idx] % 128
}

/// Module `(cx, cy)` of the interior of a macromodule carrying layer-id `id` and the
/// 14-bit value `cw`: `(0,0)`,`(1,0)` are the id bits, the rest the value, most
/// significant first.
pub open spec fn interior_bit(cx: int, cy: int, id: u8, cw: int) -> bool {
    if cy == 0 {
        if cx == 0 { bit(id as int, 1) } else if cx == 1 { bit(id as int, 0) } else if cx == 2 { bit(cw, 13) } else { bit(cw, 12) }
    } else {
        bit(cw, 15 - cy * 4 - cx)
    }
}

/// The module at `(px, py)` of the rendered symbol.
pub open spec fn gm_module(mpd: int, layers: int, ec: int, cws: Seq<u8>, px: int, py: int) -> bool {
    let x = px / 6;
    let y = py / 6;
    let i = px % 6;
    let j = py % 6;
    if i == 0 || j == 0 || i == 5 || j == 5 {
        (x + y) % 2 == 0
    } else {
        interior_bit(i - 1, j - 1, layer_id_spec(ring_spec(layers, x, y), ec), pair_value(cws, mm_index_spec(mpd, x, y)))
    }
}

/// Bit `k < 16` of `v < 2^16`.
fn bit_of(v: u32, k: u32) -> (b: bool)
    requires
        k < 16,
    ensures
        b == bit(v as int, k as int),
{
    let mut d: u32 = 1;
    let mut t: u32 = 0;
    proof {
        vstd::arithmetic::power2::lemma2_to64();
    }
    while t < k
        invariant
            t <= k,
            k < 16,
            d == vstd::arithmetic::power2::pow2(t as nat),
            vstd::arithmetic::power2::pow2(14) == 0x4000,
        decreases k - t,
    {
        proof {
            vstd::arithmetic::power2::lemma_pow2_unfold((t + 1) as nat);
            if t < 14 {
                vstd::arithmetic::power2::lemma_pow2_strictly_increases(t as nat, 14);
            }
        }
        d = d * 2;
        t = t + 1;
    }
    proof {
        vstd::arithmetic::power2::lemma_pow2_pos(k as nat);
    }
    (v / d) % 2 == 1
}

/// Render a full codeword stream (`version.total_codewords()` 7-bit values) into a
/// matrix: frame, interleaved data macromodules, and layer-id metadata.
pub fn render(version: Version, ec: EcLevel, cws: &[u8]) -> (m: BitMatrix)
    requires
        cws@.len() == 2 * (2 * version.num() + 1) * (2 * version.num() + 1),
    ensures
        m.wf(),
        m.width == 6 + 12 * version.num(),
        m.height == m.width,
        m.quiet_zone == QUIET_ZONE,
        forall|px: int, py: int| 0 <= px < m.width && 0 <= py < m.height ==> #[trigger] m.at(px, py) == gm_module(
            2 * version.num() + 1, version.num(), level_number(ec), cws@, px, py),
{
    let layers = version.number() as usize;
    let mpd = version.macromodules_per_dim();
    let size = version.size();
    let ids = layer_ids(layers, ec.number());
    let ghost e = level_number(ec);
    let mut bits: Vec<bool> = Vec::new();
    let mut py: usize = 0;
    while py < size
        invariant
            py <= size,
            size == 6 * mpd,
            mpd == 2 * layers + 1,
            1 <= layers <= 13,
            layers == version.num(),
            e == level_number(ec),
            cws@.len() == 2 * mpd * mpd,
            ids@.len() == layers + 1,
            forall|i: int| 0 <= i <= layers ==> #[trigger] ids@[i] == layer_id_spec(i, e),
            bits@.len() == py * size,
            forall|k: int| 0 <= k < bits@.len() ==> #[trigger] bits@[k] == gm_module(mpd as int, layers as int, e, cws@,
                k % (size as int), k / (size as int)),
        decreases size - py,
    {
        let mut px: usize = 0;
        while px < size
            invariant
                px <= size,
                py < size,
                size == 6 * mpd,
                mpd == 2 * layers + 1,
                1 <= layers <= 13,
                cws@.len() == 2 * mpd * mpd,
                ids@.len() == layers + 1,
                forall|i: int| 0 <= i <= layers ==> #[trigger] ids@[i] == layer_id_spec(i, e),
                bits@.len() == py * size + px,
                forall|k: int| 0 <= k < bits@.len() ==> #[trigger] bits@[k] == gm_module(mpd as int, layers as int, e, cws@,
                    k % (size as int), k / (size as int)),
            decreases size - px,
        {
            let x = px / 6;
            let y = py / 6;
            let i = px % 6;
            let j = py % 6;
            let v = if i == 0 || j == 0 || i == 5 || j == 5 {
                (x + y) % 2 == 0
            } else {
                proof {
                    lemma_mm_index_range(mpd as int, x as int, y as int);
                }
                let idx = macromodule_index(mpd, x, y);
                let cw = ((cws[idx + 1] % 128) as u32) * 128 + (cws[idx] % 128) as u32;
                let rg = ring_of(layers, x, y);
                proof {
                    assert(rg <= layers);
                }
                let id = ids[rg];
                let cx = (i - 1) as u32;
                let cy = (j - 1) as u32;
                if cy == 0 {
                    if cx == 0 {
                        bit_of(id as u32, 1)
                    } else if cx == 1 {
                        bit_of(id as u32, 0)
                    } else if cx == 2 {
                        bit_of(cw, 13)
                    } else {
                        bit_of(cw, 12)
                    }
                } else {
                    bit_of(cw, 15 - cy * 4 - cx)
                }
            };
            proof {
                let k = bits@.len() as int;
                assert(k == py * size + px);
                vstd::arithmetic::div_mod::lemma_fundamental_div_mod_converse(k, size as int, py as int, px as int);
            }
            bits.push(v);
            px = px + 1;
        }
        assert(py * size + size == (py + 1) * size) by (nonlinear_arith);
        py = py + 1;
    }
    proof {
        assert(bits@.len() == size * size) by (nonlinear_arith)
            requires
                bits@.len() == py * size,
                py == size,
        ;
        assert forall|px: int, py2: int| 0 <= px < size && 0 <= py2 < size implies bits@[py2 * size + px] == gm_module(
            mpd as int, layers as int, e, cws@, px, py2) by {
            let k = py2 * size + px;
            crate::output::lemma_grid_index(px, py2, size as int, size as int);
            vstd::arithmetic::div_mod::lemma_fundamental_div_mod_converse(k, size as int, py2, px);
        }
    }
    BitMatrix { width: size, height: size, quiet_zone: QUIET_ZONE, bits }
}


/// The 14-bit value read from the interior of macromodule `(x, y)`.
pub open spec fn read_value(m: BitMatrix, x: int, y: int) -> int {
    let ci = x * 6 + 1;
    let ri = y * 6 + 1;
    (if m.at(ci + 2, ri) { 0x2000int } else { 0 }) + (if m.at(ci + 3, ri) { 0x1000int } else { 0 })
        + read_rows(m, ci, ri, 12)
}

/// The value of the last `n` of the twelve lower interior bits (rows 1–3, most
/// significant first).
pub open spec fn read_rows(m: BitMatrix, ci: int, ri: int, n: nat) -> int
    decreases n,
{
    if n == 0 {
        0
    } else {
        let k = 12 - n;
        let r = 1 + k / 4;
        let c = k % 4;
        (if m.at(ci + c, ri + r) { vstd::arithmetic::power2::pow2((n - 1) as nat) as int } else { 0 })
            + read_rows(m, ci, ri, (n - 1) as nat)
    }
}

/// The stream after writing the pairs of the first `c` macromodules (row-major)
/// into `init`.
pub open spec fn stream_after(m: BitMatrix, mpd: int, init: Seq<u8>, c: nat) -> Seq<u8>
    decreases c,
{
    if c == 0 {
        init
    } else {
        let k = (c - 1) as int;
        let x = k % mpd;
        let y = k / mpd;
        let idx = mm_index_spec(mpd, x, y);
        let v = read_value(m, x, y);
        stream_after(m, mpd, init, (c - 1) as nat).update(idx, (v % 128) as u8).update(idx + 1, ((v / 128) % 128) as u8)
    }
}

/// Writing pairs keeps the stream length.
proof fn lemma_stream_len(m: BitMatrix, mpd: int, init: Seq<u8>, c: nat)
    requires
        1 <= mpd <= 27,
        mpd % 2 == 1,
        init.len() == 2 * mpd * mpd,
        c <= mpd * mpd,
    ensures
        stream_after(m, mpd, init, c).len() == init.len(),
    decreases c,
{
    if c > 0 {
        lemma_stream_len(m, mpd, init, (c - 1) as nat);
        let k = (c - 1) as int;
        assert(k / mpd < mpd) by (nonlinear_arith)
            requires
                0 <= k < mpd * mpd,
                mpd > 0,
        ;
        assert(0 <= k % mpd < mpd);
        assert(k / mpd >= 0);
        lemma_mm_index_range(mpd, k % mpd, k / mpd);
    }
}

/// Read the 14 data bits of macromodule `(x, y)` back into a value.
fn read_macromodule(m: &BitMatrix, x: usize, y: usize) -> (cw: u32)
    requires
        m.wf(),
        x * 6 + 5 < m.width,
        y * 6 + 5 < m.height,
    ensures
        cw == read_value(*m, x as int, y as int),
        cw < 0x4000,
{
    let ci = x * 6 + 1;
    let ri = y * 6 + 1;
    let mut cw: u32 = 0;
    if m.get(ci + 2, ri) {
        cw = cw + 0x2000;
    }
    if m.get(ci + 3, ri) {
        cw = cw + 0x1000;
    }
    let mut low: u32 = 0;
    let mut n: u32 = 0;
    proof {
        vstd::arithmetic::power2::lemma2_to64();
    }
    while n < 12
        invariant
            n <= 12,
            ci == x * 6 + 1,
            ri == y * 6 + 1,
            m.wf(),
            x * 6 + 5 < m.width,
            y * 6 + 5 < m.height,
            low == read_rows(*m, ci as int, ri as int, n as nat),
            low < vstd::arithmetic::power2::pow2(n as nat),
            vstd::arithmetic::power2::pow2(12) == 0x1000,
        decreases 12 - n,
    {
        let k = 11 - n;
        let r = (1 + k / 4) as usize;
        let c = (k % 4) as usize;
        proof {
            vstd::arithmetic::power2::lemma_pow2_unfold((n + 1) as nat);
            vstd::arithmetic::power2::lemma_pow2_strictly_increases(n as nat, 12);
        }
        let bitv: u32 = if m.get(ci + c, ri + r) { pow2_u32(n) } else { 0 };
        low = low + bitv;
        n = n + 1;
    }
    cw + low
}

/// `2^n` for `n < 13`.
fn pow2_u32(n: u32) -> (p: u32)
    requires
        n < 13,
    ensures
        p == vstd::arithmetic::power2::pow2(n as nat),
        p <= 0x1000,
{
    let mut p: u32 = 1;
    let mut t: u32 = 0;
    proof {
        vstd::arithmetic::power2::lemma2_to64();
    }
    while t < n
        invariant
            t <= n,
            n < 13,
            p == vstd::arithmetic::power2::pow2(t as nat),
            vstd::arithmetic::power2::pow2(12) == 0x1000,
        decreases n - t,
    {
        proof {
            vstd::arithmetic::power2::lemma_pow2_unfold((t + 1) as nat);
            vstd::arithmetic::power2::lemma_pow2_strictly_increases(t as nat, 12);
        }
        p = p * 2;
        t = t + 1;
    }
    proof {
        if n < 12 {
            vstd::arithmetic::power2::lemma_pow2_strictly_increases(n as nat, 12);
        }
    }
    p
}

/// Read the interleaved codeword stream back out of a rendered matrix: each
/// macromodule, in row-major order, writes its two 7-bit codewords at its pair index.
pub fn read_codewords(version: Version, m: &BitMatrix) -> (cws: Vec<u8>)
    requires
        m.wf(),
        m.width == 6 + 12 * version.num(),
        m.height == m.width,
    ensures
        cws@ == stream_after(*m, 2 * version.num() + 1, Seq::new(
            (2 * (2 * version.num() + 1) * (2 * version.num() + 1)) as nat, |_i: int| 0u8),
            ((2 * version.num() + 1) * (2 * version.num() + 1)) as nat),
{
    let vn = version.number();
    let mpd = version.macromodules_per_dim();
    let total = version.total_codewords();
    let mut cws: Vec<u8> = Vec::new();
    let mut z: usize = 0;
    while z < total
        invariant
            z <= total,
            cws@ == Seq::new(z as nat, |_i: int| 0u8),
        decreases total - z,
    {
        cws.push(0);
        z = z + 1;
        proof {
            assert(cws@ =~= Seq::new(z as nat, |_i: int| 0u8));
        }
    }
    let ghost init = cws@;
    proof {
        assert(mpd * mpd <= 27 * 27) by (nonlinear_arith)
            requires
                mpd <= 27,
        ;
    }
    let cells = mpd * mpd;
    let mut c: usize = 0;
    while c < cells
        invariant
            cells == mpd * mpd,
            c <= mpd * mpd,
            mpd == 2 * version.num() + 1,
            1 <= version.num() <= 13,
            total == 2 * mpd * mpd,
            init.len() == total,
            m.wf(),
            m.width == 6 * mpd,
            m.height == m.width,
            cws@ == stream_after(*m, mpd as int, init, c as nat),
        decreases cells - c,
    {
        let x = c % mpd;
        let y = c / mpd;
        proof {
            assert(y < mpd) by (nonlinear_arith)
                requires
                    c < mpd * mpd,
                    y == c / mpd,
                    mpd > 0,
            ;
            assert(x * 6 + 5 < 6 * mpd && y * 6 + 5 < 6 * mpd);
            lemma_mm_index_range(mpd as int, x as int, y as int);
            lemma_stream_len(*m, mpd as int, init, c as nat);
            assert(2 * mpd * mpd == 2 * (mpd * mpd)) by (nonlinear_arith);
        }
        let idx = macromodule_index(mpd, x, y);
        let cw = read_macromodule(m, x, y);
        cws.set(idx, (cw % 128) as u8);
        cws.set(idx + 1, ((cw / 128) % 128) as u8);
        c = c + 1;
    }
    cws
}


/// The 2-bit layer-id read from macromodule `(x, y)`.
pub open spec fn id_at(m: BitMatrix, x: int, y: int) -> int {
    (if m.at(x * 6 + 1, y * 6 + 1) { 2int } else { 0 }) + (if m.at(x * 6 + 2, y * 6 + 1) { 1int } else { 0 })
}

/// Among the first `c` macromodules (row-major), how many lie in ring `ring` and
/// carry layer-id `id`.
pub open spec fn votes(m: BitMatrix, layers: int, mpd: int, c: nat, ring: int, id: int) -> int
    decreases c,
{
    if c == 0 {
        0
    } else {
        let k = (c - 1) as int;
        votes(m, layers, mpd, (c - 1) as nat, ring, id) + (if ring_spec(layers, k % mpd, k / mpd) == ring
            && id_at(m, k % mpd, k / mpd) == id { 1int } else { 0int })
    }
}

/// The id with the most votes in a ring (ties to the smaller id).
pub open spec fn majority(m: BitMatrix, layers: int, mpd: int, ring: int) -> int {
    let c = (mpd * mpd) as nat;
    let b1 = if votes(m, layers, mpd, c, ring, 1) > votes(m, layers, mpd, c, ring, 0) { 1int } else { 0int };
    let b2 = if votes(m, layers, mpd, c, ring, 2) > votes(m, layers, mpd, c, ring, b1) { 2int } else { b1 };
    if votes(m, layers, mpd, c, ring, 3) > votes(m, layers, mpd, c, ring, b2) { 3int } else { b2 }
}

/// How many rings' observed ids match the pattern of level number `ec`.
pub open spec fn ec_score(m: BitMatrix, layers: int, mpd: int, ec: int, n: int) -> int
    decreases n,
{
    if n <= 0 {
        0
    } else {
        ec_score(m, layers, mpd, ec, n - 1) + (if layer_id_spec(n - 1, ec) as int == majority(m, layers, mpd, n - 1) { 1int } else { 0int })
    }
}

/// Recover the EC level from the layer-id rings by majority vote per ring, then
/// matching the observed ring ids against every candidate level; the first level
/// with the best positive score wins.
pub fn read_ec_level(version: Version, m: &BitMatrix) -> (r: Option<EcLevel>)
    requires
        m.wf(),
        m.width == 6 + 12 * version.num(),
        m.height == m.width,
    ensures
        ({
            let l = version.num();
            let mpd = 2 * l + 1;
            &&& (r is None <==> forall|e: int| 1 <= e <= 5 ==> #[trigger] ec_score(*m, l, mpd, e, l + 1) == 0)
            &&& (r matches Some(ec) ==> {
                &&& forall|e: int| 1 <= e <= 5 ==> #[trigger] ec_score(*m, l, mpd, e, l + 1) <= ec_score(*m, l, mpd, level_number(ec), l + 1)
                &&& forall|e: int| 1 <= e < level_number(ec) ==> #[trigger] ec_score(*m, l, mpd, e, l + 1) < ec_score(*m, l, mpd, level_number(ec), l + 1)
            })
        }),
{
    let layers = version.number() as usize;
    let mpd = version.macromodules_per_dim();
    let nr = layers + 1;
    proof {
        assert(mpd * mpd <= 27 * 27) by (nonlinear_arith)
            requires
                mpd <= 27,
        ;
    }
    // Vote for each ring's 2-bit id: counts[ring * 4 + id].
    let mut counts: Vec<usize> = Vec::new();
    let mut z: usize = 0;
    while z < nr * 4
        invariant
            nr <= 14,
            z <= nr * 4,
            counts@.len() == z,
            forall|k: int| 0 <= k < z ==> #[trigger] counts@[k] == 0,
        decreases nr * 4 - z,
    {
        counts.push(0);
        z = z + 1;
    }
    let cells = mpd * mpd;
    let mut c: usize = 0;
    while c < cells
        invariant
            c <= cells,
            cells == mpd * mpd,
            mpd == 2 * layers + 1,
            1 <= layers <= 13,
            nr == layers + 1,
            layers == version.num(),
            m.wf(),
            m.width == 6 * mpd,
            m.height == m.width,
            counts@.len() == nr * 4,
            forall|rg: int, id: int| 0 <= rg < nr && 0 <= id < 4 ==> #[trigger] counts@[rg * 4 + id] == votes(*m, layers as int, mpd as int, c as nat, rg, id),
            forall|k: int| 0 <= k < counts@.len() ==> #[trigger] counts@[k] <= c,
        decreases cells - c,
    {
        let x = c % mpd;
        let y = c / mpd;
        proof {
            assert(y < mpd) by (nonlinear_arith)
                requires
                    c < mpd * mpd,
                    y == c / mpd,
                    mpd > 0,
            ;
        }
        let ci = x * 6 + 1;
        let ri = y * 6 + 1;
        let mut id: usize = 0;
        if m.get(ci, ri) {
            id = id + 2;
        }
        if m.get(ci + 1, ri) {
            id = id + 1;
        }
        let rg = ring_of(layers, x, y);
        let slot = rg * 4 + id;
        let cur = counts[slot];
        counts.set(slot, cur + 1);
        proof {
            assert forall|rg2: int, id2: int| 0 <= rg2 < nr && 0 <= id2 < 4 implies #[trigger] counts@[rg2 * 4 + id2] == votes(*m, layers as int, mpd as int, (c + 1) as nat, rg2, id2) by {
                if rg2 * 4 + id2 == slot {
                    assert(rg2 == rg && id2 == id);
                } else {
                    assert(!(rg2 == rg && id2 == id));
                }
            }
        }
        c = c + 1;
    }
    // The observed id of each ring.
    let mut observed: Vec<u8> = Vec::new();
    let mut rg: usize = 0;
    while rg < nr
        invariant
            rg <= nr,
            nr == layers + 1,
            layers <= 13,
            counts@.len() == nr * 4,
            observed@.len() == rg,
            forall|q: int, id: int| 0 <= q < nr && 0 <= id < 4 ==> #[trigger] counts@[q * 4 + id] == votes(*m, layers as int, mpd as int, (mpd * mpd) as nat, q, id),
            forall|q: int| 0 <= q < rg ==> #[trigger] observed@[q] as int == majority(*m, layers as int, mpd as int, q),
        decreases nr - rg,
    {
        let base = rg * 4;
        let mut best: usize = 0;
        if counts[base + 1] > counts[base + best] {
            best = 1;
        }
        if counts[base + 2] > counts[base + best] {
            best = 2;
        }
        if counts[base + 3] > counts[base + best] {
            best = 3;
        }
        observed.push(best as u8);
        rg = rg + 1;
    }
    // Pick the level whose ring pattern best matches the observed ids.
    let mut best_ec: Option<EcLevel> = None;
    let mut best_score: usize = 0;
    let mut e: usize = 1;
    while e <= 5
        invariant
            1 <= e <= 6,
            1 <= layers <= 13,
            nr == layers + 1,
            observed@.len() == nr,
            forall|q: int| 0 <= q < nr ==> #[trigger] observed@[q] as int == majority(*m, layers as int, mpd as int, q),
            best_ec is None <==> best_score == 0,
            best_ec is None ==> forall|e2: int| 1 <= e2 < e ==> #[trigger] ec_score(*m, layers as int, mpd as int, e2, nr as int) == 0,
            best_ec matches Some(b) ==> level_number(b) < e && best_score == ec_score(*m, layers as int, mpd as int, level_number(b), nr as int)
                && (forall|e2: int| 1 <= e2 < e ==> #[trigger] ec_score(*m, layers as int, mpd as int, e2, nr as int) <= best_score)
                && (forall|e2: int| 1 <= e2 < level_number(b) ==> #[trigger] ec_score(*m, layers as int, mpd as int, e2, nr as int) < best_score),
        decreases 6 - e,
    {
        let expected = layer_ids(layers, e);
        let mut score: usize = 0;
        let mut i: usize = 0;
        while i < nr
            invariant
                i <= nr,
                nr == layers + 1,
                expected@.len() == nr,
                forall|q: int| 0 <= q < nr ==> #[trigger] expected@[q] == layer_id_spec(q, e as int),
                observed@.len() == nr,
                forall|q: int| 0 <= q < nr ==> #[trigger] observed@[q] as int == majority(*m, layers as int, mpd as int, q),
                score == ec_score(*m, layers as int, mpd as int, e as int, i as int),
                score <= i,
            decreases nr - i,
        {
            if expected[i] == observed[i] {
                score = score + 1;
            }
            i = i + 1;
        }
        if score > best_score {
            best_score = score;
            best_ec = EcLevel::from_number(e);
        }
        e = e + 1;
    }
    best_ec
}


/// The codewords read from the first `c` macromodules of `m` into an all-zero stream.
pub open spec fn read_stream(m: BitMatrix, mpd: int, c: nat) -> Seq<u8> {
    stream_after(m, mpd, Seq::new((2 * mpd * mpd) as nat, |_i: int| 0u8), c)
}

/// Every codeword read from the macromodules is a 7-bit value, and reading keeps the
/// stream length.
pub proof fn lemma_stream_shape(m: BitMatrix, mpd: int, c: nat)
    requires
        1 <= mpd <= 27,
        mpd % 2 == 1,
        c <= mpd * mpd,
    ensures
        read_stream(m, mpd, c).len() == 2 * mpd * mpd,
        forall|i: int| 0 <= i < 2 * mpd * mpd ==> #[trigger] read_stream(m, mpd, c)[i] < 128,
    decreases c,
{
    let init = Seq::new((2 * mpd * mpd) as nat, |_i: int| 0u8);
    lemma_stream_len(m, mpd, init, c);
    if c > 0 {
        lemma_stream_shape(m, mpd, (c - 1) as nat);
        lemma_stream_len(m, mpd, init, (c - 1) as nat);
        let k = (c - 1) as int;
        let x = k % mpd;
        let y = k / mpd;
        let idx = mm_index_spec(mpd, x, y);
        let v = read_value(m, x, y);
        let prev = read_stream(m, mpd, (c - 1) as nat);
        let a = (v % 128) as u8;
        let b = ((v / 128) % 128) as u8;
        assert(read_stream(m, mpd, c) == prev.update(idx, a).update(idx + 1, b));
        assert(0 <= y < mpd) by (nonlinear_arith)
            requires
                0 <= k < mpd * mpd,
                y == k / mpd,
                mpd >= 1,
        ;
        lemma_mm_index_range(mpd, x, y);
        assert(0 <= v % 128 < 128);
        assert(0 <= (v / 128) % 128 < 128);
        assert(a < 128 && b < 128);
        assert forall|i: int| 0 <= i < 2 * mpd * mpd implies #[trigger] read_stream(m, mpd, c)[i]
            < 128 by {
            assert(prev[i] < 128);
            let p1 = prev.update(idx, a);
            assert(p1[i] == if i == idx { a } else { prev[i] });
            assert(p1[i] < 128);
            assert(p1.update(idx + 1, b)[i] == if i == idx + 1 { b } else { p1[i] });
        }
    } else {
        assert forall|i: int| 0 <= i < 2 * mpd * mpd implies #[trigger] read_stream(m, mpd, c)[i]
            < 128 by {
            assert(init[i] == 0);
        }
    }
}

} // verus!
