//! DotCode structural decoding: dot matrix → symbol.
//!
//! The decoder reverses the checkerboard fold to recover the dot stream, reads the
//! two mask bits and the nine-bit codeword patterns, checks the Reed–Solomon check
//! words, removes the mask and reconstructs the payload. The unmasked data
//! codewords, size and mask go into [`DotCodeMeta`] so that re-encoding reproduces
//! the symbol.
use vstd::prelude::*;
use crate::codes::dotcode::encode::{all_codewords, masked, mask_step, p259};
use vstd::arithmetic::div_mod::lemma_div_denominator;
use crate::codes::dotcode::rs::rsencode;
use crate::codes::dotcode::tables::{
    codeword_for_pattern, corner_slots, data_cell, data_rank, is_corner, lemma_visit_index, sget,
    visit_index, BIN_LATCH, DC_DOT_PATTERNS, FNC1, FNC2, FNC3, LATCH_A, LATCH_BC, LATCH_B_FROM_A,
    UPPER_SHIFT_A, UPPER_SHIFT_B,
};
use crate::codes::dotcode::DotCodeMeta;
use crate::error::Error;
use crate::output::{BitMatrix, Encoding};
use crate::segment::{Mode, Segment};
use crate::symbol::{Symbol, SymbolMeta};
use crate::symbology::Symbology;

verus! {

/// The GS1 group separator emitted for a non-leading FNC1.
pub const GS: u8 = 29;

/// The data-codeword count whose data plus `3 + len / 2` check words make `total`.
pub open spec fn splits(total: int, dl: int) -> bool {
    1 <= dl && dl + 3 + dl / 2 == total
}

/// The data-codeword count for `total` (data + check) codewords, if one exists.
pub fn data_length_for(total: usize) -> (r: Option<usize>)
    requires
        total <= 0x00ff_ffff,
    ensures
        r matches Some(dl) ==> splits(total as int, dl as int) && forall|d: int| 1 <= d < dl ==> !splits(
            total as int,
            d,
        ),
        r is None ==> forall|d: int| 1 <= d <= total ==> !splits(total as int, d),
{
    let mut dl: usize = 1;
    while dl <= total
        invariant
            1 <= dl <= total + 1,
            total <= 0x00ff_ffff,
            forall|d: int| 1 <= d < dl ==> !splits(total as int, d),
        decreases total + 1 - dl,
    {
        if dl + 3 + dl / 2 == total {
            return Some(dl);
        }
        dl = dl + 1;
    }
    None
}

/// Remove mask `mask` from the masked data codewords.
pub fn unmask(masked_data: &[u8], mask: u8) -> (data: Vec<u8>)
    requires
        mask < 4,
        masked_data@.len() <= 40000,
    ensures
        data@.len() == masked_data@.len(),
        forall|j: int| 0 <= j < data@.len() ==> #[trigger] data@[j] == (masked_data@[j] as int + 113 - (
            mask_step(mask as int) * j) % 113) % 113,
        all_codewords(data@),
{
    let step: u32 = if mask == 0 {
        0
    } else if mask == 1 {
        3
    } else if mask == 2 {
        7
    } else {
        17
    };
    let mut data: Vec<u8> = Vec::new();
    let mut j: usize = 0;
    while j < masked_data.len()
        invariant
            j <= masked_data@.len(),
            masked_data@.len() <= 40000,
            step == mask_step(mask as int),
            step <= 17,
            data@.len() == j,
            forall|k: int| 0 <= k < j ==> #[trigger] data@[k] == (masked_data@[k] as int + 113 - (mask_step(
                mask as int,
            ) * k) % 113) % 113,
            all_codewords(data@),
        decreases masked_data@.len() - j,
    {
        let weight = (step * j as u32) % 113;
        let v = ((masked_data[j] as u32 + 113 - weight) % 113) as u8;
        data.push(v);
        j = j + 1;
    }
    data
}

/// Masking then unmasking a codeword gives it back.
pub proof fn lemma_unmask_masked(mask: int, j: int, d: int)
    requires
        0 <= d < 113,
        0 <= mask < 4,
        j >= 0,
    ensures
        (masked(mask, j, d) + 113 - (mask_step(mask) * j) % 113) % 113 == d,
{
    let w = (mask_step(mask) * j) % 113;
    assert(0 <= w < 113);
    assert(((w + d) % 113 + 113 - w) % 113 == d) by (nonlinear_arith)
        requires
            0 <= w < 113,
            0 <= d < 113,
    ;
}

/// `stream` is `grid` read back along the fold order: data cells first, then the six
/// corner dots; positions past the cells stay light.
pub open spec fn unfolded(stream: Seq<bool>, grid: Seq<bool>, w: int, h: int) -> bool {
    &&& stream.len() == (w * h) / 2
    &&& forall|t: int| 0 <= t < w * h && data_cell(w, h, t) && data_rank(w, h, t) < (w * h) / 2 ==> stream[data_rank(
        w,
        h,
        t,
    ) as int] == grid[#[trigger] visit_index(w, h, t)]
    &&& forall|c: int| 0 <= c < 6 && data_rank(w, h, w * h) + c < (w * h) / 2 ==> stream[data_rank(w, h, w * h) + c]
        == grid[#[trigger] corner_slots(w, h, w * h)[c]]
}

/// Reverse of the fold: recover the padded dot stream from the grid.
pub fn unfold_dotstream(grid: &[bool], width: usize, height: usize) -> (stream: Vec<bool>)
    requires
        5 <= width <= 200,
        5 <= height <= 200,
        grid@.len() == width * height,
    ensures
        unfolded(stream@, grid@, width as int, height as int),
{
    let ghost w = width as int;
    let ghost h = height as int;
    assert(width * height <= 40000 && width * height >= 5 * width && width * height >= 5 * height) by (nonlinear_arith)
        requires
            5 <= width <= 200,
            5 <= height <= 200,
    ;
    let wh = width * height;
    let n_dots = wh / 2;
    let mut stream: Vec<bool> = Vec::new();
    let mut z: usize = 0;
    while z < n_dots
        invariant
            z <= n_dots,
            stream@.len() == z,
        decreases n_dots - z,
    {
        stream.push(false);
        z = z + 1;
    }
    let mut pos: usize = 0;
    let mut t: usize = 0;
    while t < wh
        invariant
            w == width,
            h == height,
            wh == w * h,
            wh <= 40000,
            n_dots == wh / 2,
            5 <= width <= 200,
            5 <= height <= 200,
            grid@.len() == wh,
            t <= wh,
            stream@.len() == n_dots,
            pos == data_rank(w, h, t as int),
            pos <= t,
            forall|t2: int| 0 <= t2 < t && data_cell(w, h, t2) && data_rank(w, h, t2) < n_dots ==> stream@[data_rank(
                w,
                h,
                t2,
            ) as int] == grid@[#[trigger] visit_index(w, h, t2)],
        decreases wh - t,
    {
        let odd = height % 2 == 1;
        let (col, row) = if odd {
            (t % width, t / width)
        } else {
            (t / height, t % height)
        };
        proof {
            lemma_visit_index(w, h, t as int, t as int);
            if odd {
                assert(row < height) by (nonlinear_arith)
                    requires
                        row == t / width,
                        t < width * height,
                        width >= 1,
                ;
            } else {
                assert(col < width) by (nonlinear_arith)
                    requires
                        col == t / height,
                        t < width * height,
                        height >= 1,
                ;
            }
        }
        if (col + row) % 2 == 0 && !is_corner(col, row, width, height) {
            let idx = if odd {
                (height - row - 1) * width + col
            } else {
                row * width + col
            };
            assert(idx == visit_index(w, h, t as int));
            if pos < n_dots {
                let v = grid[idx];
                stream.set(pos, v);
            }
            proof {
                assert forall|t2: int| 0 <= t2 < t + 1 && data_cell(w, h, t2) && data_rank(w, h, t2) < n_dots implies stream@[data_rank(
                    w,
                    h,
                    t2,
                ) as int] == grid@[#[trigger] visit_index(w, h, t2)] by {
                    if t2 < t {
                        lemma_rank_increasing(w, h, t2, t as int);
                    }
                }
            }
            pos = pos + 1;
        }
        t = t + 1;
    }
    let slots: [usize; 6] = if height % 2 == 1 {
        [width - 2, wh - 2, width * 2 - 1, wh - width - 1, 0, wh - width]
    } else {
        [wh - width - 1, wh - 2 * width, wh - 2, wh - width + 1, width - 1, 0]
    };
    let ghost cs = corner_slots(w, h, wh as int);
    assert(forall|c: int| 0 <= c < 6 ==> slots@[c] == #[trigger] cs[c]);
    let ghost base = data_rank(w, h, wh as int);
    let mut c: usize = 0;
    while c < 6
        invariant
            c <= 6,
            grid@.len() == wh,
            wh <= 40000,
            stream@.len() == n_dots,
            n_dots == wh / 2,
            cs == corner_slots(w, h, wh as int),
            forall|i: int| 0 <= i < 6 ==> slots@[i] == #[trigger] cs[i],
            forall|i: int| 0 <= i < 6 ==> 0 <= #[trigger] cs[i] < wh,
            base == data_rank(w, h, wh as int),
            base <= wh,
            pos == base + c,
            forall|t2: int| 0 <= t2 < wh && data_cell(w, h, t2) && data_rank(w, h, t2) < n_dots ==> stream@[data_rank(
                w,
                h,
                t2,
            ) as int] == grid@[#[trigger] visit_index(w, h, t2)],
            forall|i: int| 0 <= i < c && base + i < n_dots ==> stream@[base + i] == grid@[#[trigger] cs[i]],
        decreases 6 - c,
    {
        if pos < n_dots {
            let v = grid[slots[c]];
            stream.set(pos, v);
            proof {
                assert forall|t2: int| 0 <= t2 < wh && data_cell(w, h, t2) && data_rank(w, h, t2) < n_dots implies stream@[data_rank(
                    w,
                    h,
                    t2,
                ) as int] == grid@[#[trigger] visit_index(w, h, t2)] by {
                    lemma_rank_below(w, h, t2, wh as int);
                }
            }
        }
        pos = pos + 1;
        c = c + 1;
    }
    stream
}

/// Ranks grow past every data cell.
pub proof fn lemma_rank_increasing(w: int, h: int, t1: int, t2: int)
    requires
        0 <= t1 < t2,
        data_cell(w, h, t1),
    ensures
        data_rank(w, h, t1) < data_rank(w, h, t2),
    decreases t2 - t1,
{
    if t2 > t1 + 1 {
        lemma_rank_increasing(w, h, t1, t2 - 1);
    }
}

/// A data cell before `n` ranks below `data_rank(n)`.
pub proof fn lemma_rank_below(w: int, h: int, t: int, n: int)
    requires
        0 <= t < n,
        data_cell(w, h, t),
    ensures
        data_rank(w, h, t) < data_rank(w, h, n),
{
    lemma_rank_increasing(w, h, t, n);
}

/// Segments as the decoder produces them: non-empty byte runs and ECI designators.
pub open spec fn segs_ok(segs: Seq<Segment>) -> bool {
    forall|k: int| 0 <= k < segs.len() ==> (#[trigger] segs[k].mode == Mode::Byte && segs[k].data@.len() > 0) || (
    segs[k].mode is Eci && segs[k].data@.len() == 0)
}

/// Code sets of the decoding state machine (binary runs are read in one go).
#[derive(Debug, Clone, Copy, PartialEq, Eq, Structural)]
pub enum DecSet {
    A,
    B,
    C,
}

/// Segments as plain values: each one's mode and bytes.
pub open spec fn seg_views(s: Seq<Segment>) -> Seq<(Mode, Seq<u8>)> {
    s.map_values(|x: Segment| (x.mode, x.data@))
}

/// The segments once the pending `bytes` are closed into a byte segment (nothing is
/// added when no byte is pending).
pub open spec fn flushed(segs: Seq<(Mode, Seq<u8>)>, bytes: Seq<u8>) -> Seq<(Mode, Seq<u8>)> {
    if bytes.len() > 0 {
        segs.push((Mode::Byte, bytes))
    } else {
        segs
    }
}

/// Move pending bytes into a byte segment.
fn flush_bytes(bytes: &mut Vec<u8>, segments: &mut Vec<Segment>)
    requires
        segs_ok(old(segments)@),
    ensures
        segs_ok(final(segments)@),
        final(bytes)@.len() == 0,
        seg_views(final(segments)@) == flushed(seg_views(old(segments)@), old(bytes)@),
{
    if bytes.len() > 0 {
        let mut taken: Vec<u8> = Vec::new();
        std::mem::swap(&mut taken, bytes);
        segments.push(Segment::byte(taken));
        proof {
            assert(seg_views(segments@) =~= flushed(seg_views(old(segments)@), old(bytes)@));
            assert forall|k: int| 0 <= k < segments@.len() implies (#[trigger] segments@[k].mode == Mode::Byte
                && segments@[k].data@.len() > 0) || (segments@[k].mode is Eci && segments@[k].data@.len() == 0) by {
                if k < segments@.len() - 1 {
                    assert(segments@[k] == old(segments)@[k]);
                }
            }
        }
    }
}

/// Flush pending bytes, then add an ECI designator.
fn flush_eci(eci: u32, bytes: &mut Vec<u8>, segments: &mut Vec<Segment>)
    requires
        segs_ok(old(segments)@),
    ensures
        segs_ok(final(segments)@),
        final(bytes)@.len() == 0,
        seg_views(final(segments)@) == flushed(seg_views(old(segments)@), old(bytes)@).push(
            (Mode::Eci(eci), Seq::<u8>::empty()),
        ),
{
    flush_bytes(bytes, segments);
    let ghost before = segments@;
    segments.push(Segment::eci(eci));
    proof {
        assert(segments@.last().data@ =~= Seq::<u8>::empty());
        assert(seg_views(segments@) =~= seg_views(before).push((Mode::Eci(eci), Seq::<u8>::empty())));
        assert forall|k: int| 0 <= k < segments@.len() implies (#[trigger] segments@[k].mode == Mode::Byte
            && segments@[k].data@.len() > 0) || (segments@[k].mode is Eci && segments@[k].data@.len() == 0) by {
            if k < segments@.len() - 1 {
                assert(segments@[k] == before[k]);
            }
        }
    }
}

/// Two decimal digits of `p`.
fn push_pair(bytes: &mut Vec<u8>, p: u8)
    ensures
        final(bytes)@ == old(bytes)@ + seq![(48 + p / 10) as u8, (48 + p % 10) as u8],
{
    bytes.push(48 + p / 10);
    bytes.push(48 + p % 10);
}

/// The byte a Code Set A value stands for.
pub open spec fn a_byte(v: u8) -> u8 {
    if v < 64 {
        (v + 32) as u8
    } else {
        (v - 64) as u8
    }
}

/// The bytes a Code Set B value stands for (96 is CR LF).
pub open spec fn b_bytes(v: u8) -> Seq<u8> {
    if v <= 95 {
        seq![(v + 32) as u8]
    } else if v == 96 {
        seq![13u8, 10u8]
    } else if v == 97 {
        seq![9u8]
    } else if v == 98 {
        seq![28u8]
    } else if v == 99 {
        seq![29u8]
    } else {
        seq![30u8]
    }
}

/// Code Set B decoding inverts Code Set B encoding on printable ASCII: the value
/// `c - 32` of a byte `c` in `32..=127` reads back as `c` alone.
pub proof fn lemma_b_bytes_ascii(c: u8)
    requires
        32 <= c <= 127,
    ensures
        b_bytes((c - 32) as u8) == seq![c],
{
}

/// Code Set A decoding inverts Code Set A encoding: a byte `c` up to 95 is sent as
/// `c + 64` when it is a control character (below 32) and as `c - 32` otherwise,
/// and either value reads back as `c`.
pub proof fn lemma_a_byte_inverts(c: u8)
    requires
        c <= 95,
    ensures
        a_byte(if c < 32 { (c + 64) as u8 } else { (c - 32) as u8 }) == c,
{
}

/// Code Set C decoding inverts the pairing of digits: two decimal digits `d1 d2`,
/// sent as the value `10 · d1 + d2`, read back as the ASCII digits `d1`, `d2`.
pub proof fn lemma_pair_digits(d1: u8, d2: u8)
    requires
        d1 <= 9,
        d2 <= 9,
    ensures
        pair_bytes((10 * d1 + d2) as u8) == seq![(48 + d1) as u8, (48 + d2) as u8],
{
    vstd::arithmetic::div_mod::lemma_fundamental_div_mod_converse(10 * d1 + d2, 10, d1 as int, d2 as int);
}

/// One Code Set A character.
fn emit_a(bytes: &mut Vec<u8>, v: u8)
    ensures
        final(bytes)@ == old(bytes)@.push(a_byte(v)),
{
    if v < 64 {
        bytes.push(v + 32);
    } else {
        bytes.push(v - 64);
    }
}

/// One Code Set B character.
fn emit_b(bytes: &mut Vec<u8>, v: u8)
    ensures
        final(bytes)@ == old(bytes)@ + b_bytes(v),
{
    if v <= 95 {
        bytes.push(v + 32);
    } else if v == 96 {
        bytes.push(13);
        bytes.push(10);
    } else {
        let c: u8 = if v == 97 {
            9
        } else if v == 98 {
            28
        } else if v == 99 {
            29
        } else {
            30
        };
        bytes.push(c);
    }
}

/// The codeword at `i`, if any.
fn at(cw: &[u8], i: usize) -> (r: Option<u8>)
    ensures
        r == (if i < cw@.len() { Some(cw@[i as int]) } else { None::<u8> }),
{
    if i < cw.len() {
        Some(cw[i])
    } else {
        None
    }
}

/// `j`, capped at the end `n`.
pub open spec fn cap(n: int, j: int) -> int {
    if j < n {
        j
    } else {
        n
    }
}

/// The ECI value after FNC2 at `s`: one codeword below 40, else three (missing
/// ones read as 0) in base 113 offset by 40.
pub open spec fn eci_value(cw: Seq<u8>, s: int) -> u32 {
    let first = cw[s];
    if first < 40 {
        first as u32
    } else {
        let b: int = if cw.len() - s > 1 { cw[s + 1] as int } else { 0 };
        let c: int = if cw.len() - s > 2 { cw[s + 2] as int } else { 0 };
        ((first - 40) * 12769 + b * 113 + c + 40) as u32
    }
}

/// The index past the ECI value at `s`.
pub open spec fn eci_next(cw: Seq<u8>, s: int) -> int {
    if cw[s] < 40 {
        s + 1
    } else {
        cap(cw.len() as int, s + 3)
    }
}

/// Read an ECI value after FNC2 at `start`; returns the next index.
fn read_eci(cw: &[u8], start: usize, bytes: &mut Vec<u8>, segments: &mut Vec<Segment>) -> (next: usize)
    requires
        segs_ok(old(segments)@),
        start <= cw@.len(),
    ensures
        segs_ok(final(segments)@),
        start <= next <= cw@.len(),
        start < cw@.len() ==> next > start && next == eci_next(cw@, start as int) && (
        seg_views(final(segments)@), final(bytes)@) == with_eci(
            (seg_views(old(segments)@), old(bytes)@),
            eci_value(cw@, start as int),
        ),
        start >= cw@.len() ==> next == start && final(segments)@ == old(segments)@ && final(bytes)@ == old(bytes)@,
{
    if start >= cw.len() {
        return start;
    }
    let first = cw[start];
    if first < 40 {
        flush_eci(first as u32, bytes, segments);
        start + 1
    } else {
        let rest = cw.len() - start;
        let b: u32 = if rest > 1 { cw[start + 1] as u32 } else { 0 };
        let c: u32 = if rest > 2 { cw[start + 2] as u32 } else { 0 };
        let eci = (first as u32 - 40) * 12769 + b * 113 + c + 40;
        flush_eci(eci, bytes, segments);
        if cw.len() - start >= 3 {
            start + 3
        } else {
            cw.len()
        }
    }
}

/// The two decimal digits of a Code Set C value.
pub open spec fn pair_bytes(p: u8) -> Seq<u8> {
    seq![(48 + p / 10) as u8, (48 + p % 10) as u8]
}

/// The digit pairs of the codewords `j .. j + cnt` that exist.
pub open spec fn pairs_from(cw: Seq<u8>, j: int, cnt: int) -> Seq<u8>
    decreases cnt,
{
    if cnt <= 0 {
        Seq::empty()
    } else {
        let prev = pairs_from(cw, j, cnt - 1);
        if 0 <= j + cnt - 1 < cw.len() {
            prev + pair_bytes(cw[j + cnt - 1])
        } else {
            prev
        }
    }
}

/// The Code Set B characters of the codewords `j .. j + cnt` that exist.
pub open spec fn b_run(cw: Seq<u8>, j: int, cnt: int) -> Seq<u8>
    decreases cnt,
{
    if cnt <= 0 {
        Seq::empty()
    } else {
        let prev = b_run(cw, j, cnt - 1);
        if 0 <= j + cnt - 1 < cw.len() {
            prev + b_bytes(cw[j + cnt - 1])
        } else {
            prev
        }
    }
}

/// The value of base-103 digits, most significant first.
pub open spec fn v103(s: Seq<u8>) -> nat
    decreases s.len(),
{
    if s.len() == 0 {
        0
    } else {
        v103(s.drop_last()) * 103 + s.last() as nat
    }
}

/// The `n` base-259 digits of `v`, most significant first.
pub open spec fn b259_digits(v: nat, n: nat) -> Seq<u16> {
    Seq::new(n, |i: int| ((v / p259((n - 1 - i) as nat)) % 259) as u16)
}

/// The base-259 values a binary run carries: each group of six codewords (or the
/// final group of `m >= 2`) is one base-103 number holding `m - 1` values; a final
/// single codeword carries none.
pub open spec fn unpack(g: Seq<u8>) -> Seq<u16>
    decreases g.len(),
{
    if g.len() < 2 {
        Seq::empty()
    } else {
        let m: int = if g.len() < 6 { g.len() as int } else { 6 };
        b259_digits(v103(g.take(m)), (m - 1) as nat) + unpack(g.skip(m))
    }
}

/// The decoder's output state with an ECI designator added: pending bytes close
/// into a byte segment first.
pub open spec fn with_eci(st: (Seq<(Mode, Seq<u8>)>, Seq<u8>), eci: u32) -> (Seq<(Mode, Seq<u8>)>, Seq<u8>) {
    (flushed(st.0, st.1).push((Mode::Eci(eci), Seq::<u8>::empty())), Seq::empty())
}

/// Value `k + d` of the unpacked stream, 0 past its end.
pub open spec fn val_after(values: Seq<u16>, k: int, d: int) -> u32 {
    if values.len() - k > d {
        values[k + d] as u32
    } else {
        0
    }
}

/// `k + d`, capped at `n`.
pub open spec fn skip_to(n: int, k: int, d: int) -> int {
    if n - k > d {
        k + d
    } else {
        n
    }
}

/// Interpret unpacked values from `k`: 0–255 are bytes, 256/257/258 introduce an ECI
/// designator of one/two/three values.
pub open spec fn interp(values: Seq<u16>, k: int, st: (Seq<(Mode, Seq<u8>)>, Seq<u8>)) -> (
    Seq<(Mode, Seq<u8>)>,
    Seq<u8>,
)
    decreases values.len() - k,
{
    if k < 0 || k >= values.len() {
        st
    } else {
        let n = values.len() as int;
        let v = values[k];
        if v <= 255 {
            interp(values, k + 1, (st.0, st.1.push(v as u8)))
        } else if v == 256 {
            interp(values, skip_to(n, k, 2), with_eci(st, val_after(values, k, 1)))
        } else if v == 257 {
            interp(
                values,
                skip_to(n, k, 3),
                with_eci(st, (val_after(values, k, 1) * 256 + val_after(values, k, 2)) as u32),
            )
        } else {
            interp(
                values,
                skip_to(n, k, 4),
                with_eci(
                    st,
                    (val_after(values, k, 1) * 65536 + val_after(values, k, 2) * 256 + val_after(values, k, 3))
                        as u32,
                ),
            )
        }
    }
}

/// Decode accumulated base-103 binary codewords (each ≤ 102) into bytes and ECIs:
/// every group of six codewords carries five base-259 values, a final group of `m`
/// codewords carries `m − 1`.
fn flush_binary(group: &[u8], bytes: &mut Vec<u8>, segments: &mut Vec<Segment>)
    requires
        segs_ok(old(segments)@),
        forall|k: int| 0 <= k < group@.len() ==> #[trigger] group@[k] <= 102,
    ensures
        segs_ok(final(segments)@),
        (seg_views(final(segments)@), final(bytes)@) == interp(
            unpack(group@),
            0,
            (seg_views(old(segments)@), old(bytes)@),
        ),
{
    let mut values: Vec<u16> = Vec::new();
    let glen = group.len();
    let mut idx: usize = 0;
    assert(group@.skip(0) =~= group@);
    while idx < group.len() && group.len() - idx >= 2
        invariant
            glen == group@.len(),
            idx <= group@.len(),
            forall|k: int| 0 <= k < group@.len() ==> #[trigger] group@[k] <= 102,
            forall|k: int| 0 <= k < values@.len() ==> #[trigger] values@[k] < 259,
            unpack(group@) == values@ + unpack(group@.skip(idx as int)),
        decreases group@.len() - idx,
    {
        let m = if group.len() - idx < 6 { group.len() - idx } else { 6 };
        let mut buf: u64 = 0;
        let mut q: usize = 0;
        while q < m
            invariant
                glen == group@.len(),
                q <= m,
                m <= 6,
                idx + m <= group@.len(),
                forall|k: int| 0 <= k < group@.len() ==> #[trigger] group@[k] <= 102,
                buf < p103(q as nat),
                buf == v103(group@.subrange(idx as int, idx + q)),
            decreases m - q,
        {
            proof {
                assert(p103((q + 1) as nat) == 103 * p103(q as nat));
                lemma_p103_small(q as nat);
                assert(buf * 103 + group@[idx + q] < 103 * p103(q as nat)) by (nonlinear_arith)
                    requires
                        buf < p103(q as nat),
                        group@[idx + q] <= 102,
                ;
                assert(103 * p103(q as nat) <= 103 * 11592740743) by (nonlinear_arith)
                    requires
                        p103(q as nat) <= 11592740743,
                ;
                assert(buf * 103 + group@[idx + q] < 1194052296529);
                assert(buf * 103 < 1194052296529);
                let sub = group@.subrange(idx as int, idx + q);
                assert(group@.subrange(idx as int, idx + q + 1).drop_last() =~= sub);
            }
            let g = group[idx + q] as u64;
            let b103 = buf * 103;
            buf = b103 + g;
            q = q + 1;
        }
        let size = m - 1;
        let ghost buf0: nat = buf as nat;
        let mut lsf: Vec<u16> = Vec::new();
        let mut r: usize = 0;
        assert(p259(0) == 1);
        while r < size
            invariant
                r <= size,
                size <= 5,
                lsf@.len() == r,
                buf == buf0 / p259(r as nat),
                forall|k: int| 0 <= k < lsf@.len() ==> #[trigger] lsf@[k] < 259,
                forall|k: int| 0 <= k < lsf@.len() ==> #[trigger] lsf@[k] == (buf0 / p259(k as nat)) % 259,
            decreases size - r,
        {
            proof {
                lemma_p259_pos(r as nat);
                lemma_div_denominator(buf0 as int, p259(r as nat) as int, 259);
                assert(p259((r + 1) as nat) == 259 * p259(r as nat));
                assert(p259(r as nat) * 259 == 259 * p259(r as nat)) by (nonlinear_arith);
            }
            lsf.push((buf % 259) as u16);
            buf = buf / 259;
            r = r + 1;
        }
        let ghost before = values@;
        let mut r2: usize = size;
        while r2 > 0
            invariant
                r2 <= size,
                lsf@.len() == size,
                forall|k: int| 0 <= k < lsf@.len() ==> #[trigger] lsf@[k] < 259,
                forall|k: int| 0 <= k < lsf@.len() ==> #[trigger] lsf@[k] == (buf0 / p259(k as nat)) % 259,
                forall|k: int| 0 <= k < values@.len() ==> #[trigger] values@[k] < 259,
                values@ == before + b259_digits(buf0, size as nat).subrange(0, size - r2),
            decreases r2,
        {
            values.push(lsf[r2 - 1]);
            r2 = r2 - 1;
            proof {
                assert(values@ =~= before + b259_digits(buf0, size as nat).subrange(0, size - r2));
            }
        }
        proof {
            let rest = group@.skip(idx as int);
            assert(rest.take(m as int) =~= group@.subrange(idx as int, idx + m));
            assert(rest.skip(m as int) =~= group@.skip(idx + m));
            assert(b259_digits(buf0, size as nat).subrange(0, size as int) =~= b259_digits(buf0, size as nat));
            assert(unpack(rest) == b259_digits(v103(rest.take(m as int)), (m - 1) as nat) + unpack(
                rest.skip(m as int),
            ));
            assert(before + (b259_digits(buf0, size as nat) + unpack(group@.skip(idx + m)))
                =~= values@ + unpack(group@.skip(idx + m)));
        }
        idx = idx + m;
    }
    proof {
        assert(unpack(group@.skip(idx as int)) =~= Seq::<u16>::empty());
        assert(values@ + Seq::<u16>::empty() =~= values@);
        assert(unpack(group@) == values@);
    }
    // Interpret: 0–255 are bytes, 256/257/258 introduce an ECI of one/two/three bytes.
    let ghost st0 = (seg_views(segments@), bytes@);
    let n = values.len();
    let mut k: usize = 0;
    while k < n
        invariant
            n == values@.len(),
            k <= n,
            segs_ok(segments@),
            forall|i: int| 0 <= i < values@.len() ==> #[trigger] values@[i] < 259,
            interp(values@, 0, st0) == interp(values@, k as int, (seg_views(segments@), bytes@)),
        decreases n - k,
    {
        let v = values[k];
        let ghost k0 = k as int;
        let ghost stb = (seg_views(segments@), bytes@);
        if v <= 255 {
            bytes.push(v as u8);
            k = k + 1;
            assert((seg_views(segments@), bytes@) == (stb.0, stb.1.push(v as u8)));
        } else if v == 256 {
            let eci = value_after(&values, k, 1);
            flush_eci(eci, bytes, segments);
            k = skip(n, k, 2);
            assert(bytes@ =~= Seq::<u8>::empty());
            assert((seg_views(segments@), bytes@) == with_eci(stb, val_after(values@, k0, 1)));
        } else if v == 257 {
            let hi = value_after(&values, k, 1);
            let lo = value_after(&values, k, 2);
            flush_eci(hi * 256 + lo, bytes, segments);
            k = skip(n, k, 3);
            assert(bytes@ =~= Seq::<u8>::empty());
            assert((seg_views(segments@), bytes@) == with_eci(
                stb,
                (val_after(values@, k0, 1) * 256 + val_after(values@, k0, 2)) as u32,
            ));
        } else {
            let a = value_after(&values, k, 1);
            let b = value_after(&values, k, 2);
            let c = value_after(&values, k, 3);
            flush_eci(a * 65536 + b * 256 + c, bytes, segments);
            k = skip(n, k, 4);
            assert(bytes@ =~= Seq::<u8>::empty());
            assert((seg_views(segments@), bytes@) == with_eci(
                stb,
                (val_after(values@, k0, 1) * 65536 + val_after(values@, k0, 2) * 256 + val_after(values@, k0, 3))
                    as u32,
            ));
        }
        proof {
            assert(interp(values@, k0, stb) == interp(values@, k as int, (seg_views(segments@), bytes@)));
        }
    }
}

/// `k + d`, capped at `n`.
fn skip(n: usize, k: usize, d: usize) -> (r: usize)
    requires
        k < n,
        d >= 1,
    ensures
        k < r <= n,
        r == skip_to(n as int, k as int, d as int),
{
    if n - k > d {
        k + d
    } else {
        n
    }
}

/// Value `k + d` of the unpacked binary stream, 0 past its end.
fn value_after(values: &Vec<u16>, k: usize, d: usize) -> (r: u32)
    requires
        k < values@.len(),
        forall|i: int| 0 <= i < values@.len() ==> #[trigger] values@[i] < 259,
    ensures
        r < 259,
        r == val_after(values@, k as int, d as int),
{
    if values.len() - k > d {
        values[k + d] as u32
    } else {
        0
    }
}

/// Powers of 259 are positive.
proof fn lemma_p259_pos(n: nat)
    ensures
        p259(n) >= 1,
    decreases n,
{
    if n > 0 {
        lemma_p259_pos((n - 1) as nat);
    }
}


/// `103^q` for `q ≤ 5` is at most `103^5`.
proof fn lemma_p103_small(q: nat)
    requires
        q <= 5,
    ensures
        p103(q) <= 11592740743,
{
    reveal_with_fuel(p103, 7);
    assert(p103(5) == 11592740743nat);
}

/// `103^n`.
pub open spec fn p103(n: nat) -> nat
    decreases n,
{
    if n == 0 {
        1
    } else {
        103 * p103((n - 1) as nat)
    }
}

/// A binary run from `i` with `group` pending: codewords up to 102 gather into the
/// group; a control codeword closes it (its values interpreted), then 103–108 add
/// `v − 101` digit pairs and stay in the run, while any other ends it, latching to
/// Code Set A after FNC3, B after Upper Shift A, else C. The end of the codewords
/// ends it in Code Set C. The result is the index past the run, the code set and the
/// output.
pub open spec fn bin_run(cw: Seq<u8>, i: int, group: Seq<u8>, st: (Seq<(Mode, Seq<u8>)>, Seq<u8>)) -> (
    int,
    DecSet,
    (Seq<(Mode, Seq<u8>)>, Seq<u8>),
)
    decreases cw.len() - i,
{
    if i < 0 || i >= cw.len() {
        (i, DecSet::C, interp(unpack(group), 0, st))
    } else {
        let v = cw[i];
        if v <= 102 {
            bin_run(cw, i + 1, group.push(v), st)
        } else {
            let st1 = interp(unpack(group), 0, st);
            if 103 <= v <= 108 {
                let j = cap(cw.len() as int, i + 1 + (v - 101));
                let st2 = (st1.0, st1.1 + pairs_from(cw, i + 1, v - 101));
                if j >= cw.len() {
                    (j, DecSet::C, st2)
                } else {
                    bin_run(cw, j, Seq::empty(), st2)
                }
            } else {
                (
                    i + 1,
                    if v == FNC3 {
                        DecSet::A
                    } else if v == UPPER_SHIFT_A {
                        DecSet::B
                    } else {
                        DecSet::C
                    },
                    st1,
                )
            }
        }
    }
}

/// A binary run from `i` ends between `i` and the end.
pub proof fn lemma_bin_run_bounds(cw: Seq<u8>, i: int, group: Seq<u8>, st: (Seq<(Mode, Seq<u8>)>, Seq<u8>))
    requires
        0 <= i <= cw.len(),
    ensures
        i <= bin_run(cw, i, group, st).0 <= cw.len(),
    decreases cw.len() - i,
{
    if i < cw.len() {
        let v = cw[i];
        if v <= 102 {
            lemma_bin_run_bounds(cw, i + 1, group.push(v), st);
        } else if 103 <= v <= 108 {
            let st1 = interp(unpack(group), 0, st);
            let j = cap(cw.len() as int, i + 1 + (v - 101));
            if j < cw.len() {
                lemma_bin_run_bounds(cw, j, Seq::empty(), (st1.0, st1.1 + pairs_from(cw, i + 1, v - 101)));
            }
        }
    }
}

/// Decode a binary run starting at `start`; returns the index past the run and the
/// code set its terminator latches to.
fn decode_binary(cw: &[u8], start: usize, bytes: &mut Vec<u8>, segments: &mut Vec<Segment>) -> (r: (usize, DecSet))
    requires
        segs_ok(old(segments)@),
        start <= cw@.len(),
    ensures
        segs_ok(final(segments)@),
        start <= r.0 <= cw@.len(),
        (r.0 as int, r.1, (seg_views(final(segments)@), final(bytes)@)) == bin_run(
            cw@,
            start as int,
            Seq::empty(),
            (seg_views(old(segments)@), old(bytes)@),
        ),
{
    let ghost res = bin_run(cw@, start as int, Seq::empty(), (seg_views(segments@), bytes@));
    let mut i = start;
    let mut group: Vec<u8> = Vec::new();
    proof {
        assert(group@ =~= Seq::<u8>::empty());
    }
    loop
        invariant
            segs_ok(segments@),
            start <= i <= cw@.len(),
            forall|k: int| 0 <= k < group@.len() ==> #[trigger] group@[k] <= 102,
            res == bin_run(cw@, i as int, group@, (seg_views(segments@), bytes@)),
            res == bin_run(cw@, start as int, Seq::empty(), (seg_views(old(segments)@), old(bytes)@)),
        decreases cw@.len() - i,
    {
        let ghost stb = (seg_views(segments@), bytes@);
        let ghost g = group@;
        if i >= cw.len() {
            flush_binary(group.as_slice(), bytes, segments);
            proof {
                assert(res == (i as int, DecSet::C, interp(unpack(g), 0, stb)));
            }
            return (i, DecSet::C);
        }
        let v = cw[i];
        if v <= 102 {
            group.push(v);
            i = i + 1;
            continue;
        }
        // A control codeword ends the pending group.
        flush_binary(group.as_slice(), bytes, segments);
        let ghost st1 = (seg_views(segments@), bytes@);
        proof {
            assert(st1 == interp(unpack(g), 0, stb));
        }
        group = Vec::new();
        proof {
            assert(group@ =~= Seq::<u8>::empty());
        }
        if 103 <= v && v <= 108 {
            // "n Shift C" interrupt: n digit pairs, staying in binary.
            let n = (v - 101) as usize;
            let i0 = i;
            let ghost b1 = bytes@;
            i = i + 1;
            let mut q: usize = 0;
            while q < n
                invariant
                    start <= i0 < cw@.len(),
                    i as int == cap(cw@.len() as int, i0 + 1 + q),
                    q <= n,
                    bytes@ == b1 + pairs_from(cw@, i0 + 1, q as int),
                decreases n - q,
            {
                if i < cw.len() {
                    push_pair(bytes, cw[i]);
                    i = i + 1;
                }
                q = q + 1;
                proof {
                    assert(bytes@ =~= b1 + pairs_from(cw@, i0 + 1, q as int));
                }
            }
            proof {
                assert(i as int == cap(cw@.len() as int, i0 + 1 + (v - 101)));
                assert((seg_views(segments@), bytes@) == (st1.0, st1.1 + pairs_from(cw@, i0 + 1, v - 101)));
            }
            if i >= cw.len() {
                return (i, DecSet::C);
            }
            continue;
        }
        // Terminators.
        i = i + 1;
        let mode = if v == FNC3 {
            DecSet::A
        } else if v == UPPER_SHIFT_A {
            DecSet::B
        } else {
            DecSet::C
        };
        proof {
            assert(res == (i as int, mode, st1));
        }
        return (i, mode);
    }
}

/// The decoder's output: closed segments and pending bytes.
pub open spec fn add_bytes(st: (Seq<(Mode, Seq<u8>)>, Seq<u8>), b: Seq<u8>) -> (Seq<(Mode, Seq<u8>)>, Seq<u8>) {
    (st.0, st.1 + b)
}

/// The Code Set A/B/C state machine from codeword `i` in set `mode`. In every set
/// FNC1 gives a group separator, FNC2 an ECI designator, Upper Shift A/B the next
/// codeword plus 64/160, and the binary latch a binary run. Otherwise, in Code Set C
/// a value below 100 is a digit pair, 100 is "17", three pairs and "10", 102–105
/// shift B for `v − 101` characters; in Code Set B a value up to 100 is a B
/// character, 101 shifts A for one character, 103–105 shift C for `v − 101` pairs;
/// in Code Set A a value up to 95 is an A character, 96–101 shift B for `v − 95`,
/// 103–105 shift C. Latches switch sets; anything else is skipped.
pub open spec fn cts_run(cw: Seq<u8>, i: int, mode: DecSet, st: (Seq<(Mode, Seq<u8>)>, Seq<u8>)) -> (
    Seq<(Mode, Seq<u8>)>,
    Seq<u8>,
)
    decreases cw.len() - i,
{
    if i < 0 || i >= cw.len() {
        st
    } else {
        let n = cw.len() as int;
        let v = cw[i];
        let next_b: Seq<u8> = if i + 1 < n { seq![cw[i + 1]] } else { Seq::empty() };
        if v == FNC1 {
            cts_run(cw, i + 1, mode, add_bytes(st, seq![GS]))
        } else if v == FNC2 {
            if i + 1 < n {
                proof {
                    assert(eci_next(cw, i + 1) > i);
                }
                cts_run(cw, eci_next(cw, i + 1), mode, with_eci(st, eci_value(cw, i + 1)))
            } else {
                st
            }
        } else if v == UPPER_SHIFT_A {
            cts_run(cw, cap(n, i + 2), mode, add_bytes(st, next_b.map_values(|b: u8| ((b + 64) % 256) as u8)))
        } else if v == UPPER_SHIFT_B {
            cts_run(cw, cap(n, i + 2), mode, add_bytes(st, next_b.map_values(|b: u8| ((b + 160) % 256) as u8)))
        } else if v == BIN_LATCH {
            let r = bin_run(cw, i + 1, Seq::empty(), st);
            proof {
                lemma_bin_run_bounds(cw, i + 1, Seq::empty(), st);
            }
            cts_run(cw, r.0, r.1, r.2)
        } else {
            match mode {
                DecSet::C => if v < 100 {
                    cts_run(cw, i + 1, mode, add_bytes(st, pair_bytes(v)))
                } else if v == 100 {
                    cts_run(
                        cw,
                        cap(n, i + 4),
                        mode,
                        add_bytes(st, seq![49u8, 55u8] + pairs_from(cw, i + 1, 3) + seq![49u8, 48u8]),
                    )
                } else if v == LATCH_A {
                    cts_run(cw, i + 1, DecSet::A, st)
                } else if 102 <= v <= 105 {
                    cts_run(cw, cap(n, i + 1 + (v - 101)), mode, add_bytes(st, b_run(cw, i + 1, v - 101)))
                } else if v == LATCH_BC {
                    cts_run(cw, i + 1, DecSet::B, st)
                } else {
                    cts_run(cw, i + 1, mode, st)
                },
                DecSet::B => if v <= 100 {
                    cts_run(cw, i + 1, mode, add_bytes(st, b_bytes(v)))
                } else if v == LATCH_A {
                    cts_run(cw, cap(n, i + 2), mode, add_bytes(st, next_b.map_values(|b: u8| a_byte(b))))
                } else if v == LATCH_B_FROM_A {
                    cts_run(cw, i + 1, DecSet::A, st)
                } else if 103 <= v <= 105 {
                    cts_run(cw, cap(n, i + 1 + (v - 101)), mode, add_bytes(st, pairs_from(cw, i + 1, v - 101)))
                } else if v == LATCH_BC {
                    cts_run(cw, i + 1, DecSet::C, st)
                } else {
                    cts_run(cw, i + 1, mode, st)
                },
                DecSet::A => if v <= 95 {
                    cts_run(cw, i + 1, mode, add_bytes(st, seq![a_byte(v)]))
                } else if 96 <= v <= 101 {
                    cts_run(cw, cap(n, i + 1 + (v - 95)), mode, add_bytes(st, b_run(cw, i + 1, v - 95)))
                } else if v == LATCH_B_FROM_A {
                    cts_run(cw, i + 1, DecSet::B, st)
                } else if 103 <= v <= 105 {
                    cts_run(cw, cap(n, i + 1 + (v - 101)), mode, add_bytes(st, pairs_from(cw, i + 1, v - 101)))
                } else if v == LATCH_BC {
                    cts_run(cw, i + 1, DecSet::C, st)
                } else {
                    cts_run(cw, i + 1, mode, st)
                },
            }
        }
    }
}

/// Where reading starts: past a leading Reader Initialisation or FNC1.
pub open spec fn cts_start(cw: Seq<u8>) -> int {
    if cw.len() > 0 && (cw[0] == FNC3 || cw[0] == FNC1) {
        1
    } else {
        0
    }
}

/// The segments data codewords read as: the state machine from Code Set C, its
/// pending bytes closed.
pub open spec fn segments_of(cw: Seq<u8>) -> Seq<(Mode, Seq<u8>)> {
    let fin = cts_run(cw, cts_start(cw), DecSet::C, (Seq::empty(), Seq::empty()));
    flushed(fin.0, fin.1)
}

/// "n Shift B" at `i`: the B characters of the next `nx` codewords that exist.
fn shift_b(cw: &[u8], i: usize, nx: usize, bytes: &mut Vec<u8>) -> (next: usize)
    requires
        i < cw@.len(),
        nx <= 6,
    ensures
        i < next <= cw@.len(),
        next as int == cap(cw@.len() as int, i + 1 + nx),
        final(bytes)@ == old(bytes)@ + b_run(cw@, i + 1, nx as int),
{
    let n = cw.len();
    let mut j = i + 1;
    let mut k: usize = 0;
    proof {
        assert(old(bytes)@ =~= old(bytes)@ + b_run(cw@, i + 1, 0));
    }
    while k < nx
        invariant
            i < j <= cw@.len(),
            k <= nx,
            j as int == cap(cw@.len() as int, i + 1 + k),
            bytes@ == old(bytes)@ + b_run(cw@, i + 1, k as int),
        decreases nx - k,
    {
        if j < cw.len() {
            emit_b(bytes, cw[j]);
            j = j + 1;
        }
        k = k + 1;
        proof {
            assert(bytes@ =~= old(bytes)@ + b_run(cw@, i + 1, k as int));
        }
    }
    j
}

/// "n Shift C" at `i` (`v` = 103–105): `v − 101` digit pairs follow.
fn shift_c(cw: &[u8], i: usize, v: u8, bytes: &mut Vec<u8>) -> (next: usize)
    requires
        i < cw@.len(),
        103 <= v <= 105,
    ensures
        i < next <= cw@.len(),
        next as int == cap(cw@.len() as int, i + 1 + (v - 101)),
        final(bytes)@ == old(bytes)@ + pairs_from(cw@, i + 1, v - 101),
{
    let nx = (v - 101) as usize;
    let n = cw.len();
    let mut j = i + 1;
    let mut k: usize = 0;
    proof {
        assert(old(bytes)@ =~= old(bytes)@ + pairs_from(cw@, i + 1, 0));
    }
    while k < nx
        invariant
            i < j <= cw@.len(),
            k <= nx,
            nx == v - 101,
            j as int == cap(cw@.len() as int, i + 1 + k),
            bytes@ == old(bytes)@ + pairs_from(cw@, i + 1, k as int),
        decreases nx - k,
    {
        if j < cw.len() {
            push_pair(bytes, cw[j]);
            j = j + 1;
        }
        k = k + 1;
        proof {
            assert(bytes@ =~= old(bytes)@ + pairs_from(cw@, i + 1, k as int));
        }
    }
    j
}

/// Reconstruct payload segments from unmasked data codewords: a best-effort,
/// human-readable reading of the Code Set A/B/C and binary runs (the lossless
/// record of a symbol is its codewords).
#[verifier::rlimit(60)]
pub fn codewords_to_segments(cw: &[u8]) -> (segments: Vec<Segment>)
    ensures
        segs_ok(segments@),
        seg_views(segments@) == segments_of(cw@),
{
    let mut bytes: Vec<u8> = Vec::new();
    let mut segments: Vec<Segment> = Vec::new();
    let mut mode = DecSet::C;
    let mut i: usize = 0;
    // Skip a leading Reader Initialisation or leading FNC1.
    if i < cw.len() && (cw[i] == FNC3 || cw[i] == FNC1) {
        i = i + 1;
    }
    let ghost fin = cts_run(cw@, i as int, DecSet::C, (Seq::empty(), Seq::empty()));
    proof {
        assert(seg_views(segments@) =~= Seq::<(Mode, Seq<u8>)>::empty());
        assert(bytes@ =~= Seq::<u8>::empty());
        assert(i as int == cts_start(cw@));
    }
    while i < cw.len()
        invariant
            i <= cw@.len(),
            segs_ok(segments@),
            fin == cts_run(cw@, i as int, mode, (seg_views(segments@), bytes@)),
        decreases cw@.len() - i,
    {
        let v = cw[i];
        let ghost i0 = i as int;
        let ghost st0 = (seg_views(segments@), bytes@);
        let ghost mode0 = mode;
        let ghost next_b: Seq<u8> = if i0 + 1 < cw@.len() { seq![cw@[i0 + 1]] } else { Seq::empty() };
        if v == FNC1 {
            bytes.push(GS);
            i = i + 1;
            proof {
                assert(bytes@ =~= st0.1 + seq![GS]);
            }
        } else if v == FNC2 {
            i = read_eci(cw, i + 1, &mut bytes, &mut segments);
        } else if v == UPPER_SHIFT_A {
            if let Some(b) = at(cw, i + 1) {
                bytes.push(((b as u16 + 64) % 256) as u8);
            }
            i = if cw.len() - i >= 2 { i + 2 } else { cw.len() };
            proof {
                assert(bytes@ =~= st0.1 + next_b.map_values(|b: u8| ((b + 64) % 256) as u8));
            }
        } else if v == UPPER_SHIFT_B {
            if let Some(b) = at(cw, i + 1) {
                bytes.push(((b as u16 + 160) % 256) as u8);
            }
            i = if cw.len() - i >= 2 { i + 2 } else { cw.len() };
            proof {
                assert(bytes@ =~= st0.1 + next_b.map_values(|b: u8| ((b + 160) % 256) as u8));
            }
        } else if v == BIN_LATCH {
            let (next, m) = decode_binary(cw, i + 1, &mut bytes, &mut segments);
            i = next;
            mode = m;
        } else {
            match mode {
                DecSet::C => {
                    if v < 100 {
                        push_pair(&mut bytes, v);
                        i = i + 1;
                    } else if v == 100 {
                        // "17" + three digit pairs + "10".
                        bytes.push(49);
                        bytes.push(55);
                        let ghost b1 = bytes@;
                        let mut k: usize = 0;
                        proof {
                            assert(b1 =~= b1 + pairs_from(cw@, i0 + 1, 0));
                        }
                        while k < 3
                            invariant
                                k <= 3,
                                i < cw@.len(),
                                i == i0,
                                bytes@ == b1 + pairs_from(cw@, i0 + 1, k as int),
                            decreases 3 - k,
                        {
                            if cw.len() - i > 1 + k {
                                push_pair(&mut bytes, cw[i + 1 + k]);
                            }
                            k = k + 1;
                            proof {
                                assert(bytes@ =~= b1 + pairs_from(cw@, i0 + 1, k as int));
                            }
                        }
                        bytes.push(49);
                        bytes.push(48);
                        i = if cw.len() - i >= 4 { i + 4 } else { cw.len() };
                        proof {
                            assert(bytes@ =~= st0.1 + (seq![49u8, 55u8] + pairs_from(cw@, i0 + 1, 3) + seq![49u8, 48u8]));
                        }
                    } else if v == LATCH_A {
                        mode = DecSet::A;
                        i = i + 1;
                    } else if 102 <= v && v <= 105 {
                        // "n Shift B".
                        i = shift_b(cw, i, (v - 101) as usize, &mut bytes);
                    } else if v == LATCH_BC {
                        mode = DecSet::B;
                        i = i + 1;
                    } else {
                        // FNC3 pad or an unknown value: no output.
                        i = i + 1;
                    }
                },
                DecSet::B => {
                    if v <= 95 {
                        bytes.push(v + 32);
                        i = i + 1;
                        proof {
                            assert(bytes@ =~= st0.1 + b_bytes(v));
                        }
                    } else if v == 96 {
                        bytes.push(13);
                        bytes.push(10);
                        i = i + 1;
                        proof {
                            assert(bytes@ =~= st0.1 + b_bytes(v));
                        }
                    } else if 97 <= v && v <= 100 {
                        emit_b(&mut bytes, v);
                        i = i + 1;
                    } else if v == LATCH_A {
                        // Shift A: one Code Set A character.
                        if let Some(b) = at(cw, i + 1) {
                            emit_a(&mut bytes, b);
                        }
                        i = if cw.len() - i >= 2 { i + 2 } else { cw.len() };
                        proof {
                            assert(bytes@ =~= st0.1 + next_b.map_values(|b: u8| a_byte(b)));
                        }
                    } else if v == LATCH_B_FROM_A {
                        mode = DecSet::A;
                        i = i + 1;
                    } else if 103 <= v && v <= 105 {
                        i = shift_c(cw, i, v, &mut bytes);
                    } else if v == LATCH_BC {
                        mode = DecSet::C;
                        i = i + 1;
                    } else {
                        i = i + 1;
                    }
                },
                DecSet::A => {
                    if v <= 95 {
                        emit_a(&mut bytes, v);
                        i = i + 1;
                        proof {
                            assert(bytes@ =~= st0.1 + seq![a_byte(v)]);
                        }
                    } else if 96 <= v && v <= 101 {
                        // "n Shift B".
                        i = shift_b(cw, i, (v - 95) as usize, &mut bytes);
                    } else if v == LATCH_B_FROM_A {
                        mode = DecSet::B;
                        i = i + 1;
                    } else if 103 <= v && v <= 105 {
                        i = shift_c(cw, i, v, &mut bytes);
                    } else if v == LATCH_BC {
                        mode = DecSet::C;
                        i = i + 1;
                    } else {
                        i = i + 1;
                    }
                },
            }
        }
        proof {
            let goal = cts_run(cw@, i as int, mode, (seg_views(segments@), bytes@));
            if v == FNC1 {
                assert(cts_run(cw@, i0, mode0, st0) == goal);
            } else if v == FNC2 {
                assert(cts_run(cw@, i0, mode0, st0) == goal);
            } else if v == UPPER_SHIFT_A || v == UPPER_SHIFT_B {
                assert(cts_run(cw@, i0, mode0, st0) == goal);
            } else if v == BIN_LATCH {
                assert(cts_run(cw@, i0, mode0, st0) == goal);
            } else if mode0 == DecSet::C {
                assert(cts_run(cw@, i0, mode0, st0) == goal);
            } else if mode0 == DecSet::B {
                assert(cts_run(cw@, i0, mode0, st0) == goal);
            } else if v <= 95 {
                assert(cts_run(cw@, i0, mode0, st0) == goal);
            } else if v <= 101 {
                assert(cts_run(cw@, i0, mode0, st0) == goal);
            } else if v == LATCH_B_FROM_A {
                assert(cts_run(cw@, i0, mode0, st0) == goal);
            } else if v <= 105 {
                assert(cts_run(cw@, i0, mode0, st0) == goal);
            } else {
                assert(cts_run(cw@, i0, mode0, st0) == goal);
            }
        }
    }
    flush_bytes(&mut bytes, &mut segments);
    segments
}

/// The nine-bit value read at `pos`, most significant bit first.
pub open spec fn pat_at(s: Seq<bool>, pos: int, k: nat) -> int
    decreases k,
{
    if k == 0 {
        0
    } else {
        pat_at(s, pos, (k - 1) as nat) * 2 + if s[pos + k - 1] { 1int } else { 0int }
    }
}

/// The nine-bit pattern at `pos` of the dot stream.
fn read_pattern(stream: &Vec<bool>, pos: usize) -> (p: u16)
    requires
        pos + 9 <= stream@.len(),
    ensures
        p == pat_at(stream@, pos as int, 9),
        p < 512,
{
    let n = stream.len();
    let mut p: u16 = 0;
    let mut k: usize = 0;
    while k < 9
        invariant
            n == stream@.len(),
            k <= 9,
            pos + 9 <= stream@.len(),
            p == pat_at(stream@, pos as int, k as nat),
            p < pow2_9(k as nat),
        decreases 9 - k,
    {
        proof {
            assert(pow2_9((k + 1) as nat) == 2 * pow2_9(k as nat));
            assert(pow2_9(k as nat) <= 256) by {
                reveal_with_fuel(pow2_9, 10);
            }
        }
        let bit: u16 = if stream[pos + k] { 1 } else { 0 };
        p = p * 2 + bit;
        k = k + 1;
    }
    proof {
        reveal_with_fuel(pow2_9, 10);
    }
    p
}

/// `2^k`.
pub open spec fn pow2_9(k: nat) -> nat
    decreases k,
{
    if k == 0 {
        1
    } else {
        2 * pow2_9((k - 1) as nat)
    }
}

/// Why a matrix does not decode as DotCode before any codeword is read, if it does not.
pub open spec fn shape_error(w: int, h: int) -> bool {
    !(5 <= w <= 200) || !(5 <= h <= 200) || (w + h) % 2 != 1
}

/// DotCode structural decoder.
#[derive(Debug, Default, Clone, Copy)]
pub struct DotCodeDecoder;

impl DotCodeDecoder {
    /// A new decoder.
    pub fn new() -> (d: Self) {
        DotCodeDecoder
    }

    /// Decode a clean DotCode dot matrix: unfold, read the mask and codewords, check
    /// the Reed–Solomon words, unmask, and rebuild the payload.
    #[verifier::loop_isolation(false)]
    pub fn decode_matrix(&self, matrix: &BitMatrix) -> (r: Result<Symbol, Error>)
        requires
            matrix.wf(),
        ensures
            shape_error(matrix.width as int, matrix.height as int) ==> r == Err::<Symbol, Error>(Error::Undecodable),
            r matches Err(e) ==> e == Error::Undecodable || e == Error::ErrorCorrectionFailed,
            r matches Ok(sym) ==> {
                &&& sym.symbology == Symbology::DotCode
                &&& segs_ok(sym.segments@)
                &&& sym.meta matches SymbolMeta::DotCode(meta) && {
                    &&& meta.width == matrix.width
                    &&& meta.height == matrix.height
                    &&& meta.mask < 4
                    &&& meta.codewords@.len() >= 1
                    &&& all_codewords(meta.codewords@)
                }
            },
    {
        let width = matrix.width;
        let height = matrix.height;
        if !(5 <= width && width <= 200) || !(5 <= height && height <= 200) {
            return Err(Error::Undecodable);
        }
        if (width + height) % 2 != 1 {
            return Err(Error::Undecodable);
        }
        let stream = unfold_dotstream(matrix.bits.as_slice(), width, height);
        assert((width * height) / 2 <= 20000) by (nonlinear_arith)
            requires
                width <= 200,
                height <= 200,
        ;
        if stream.len() < 2 + 9 {
            return Err(Error::Undecodable);
        }
        let mask: u8 = (if stream[0] { 2u8 } else { 0u8 }) + (if stream[1] { 1u8 } else { 0u8 });
        // Read nine-bit codeword patterns until one is not a symbol character.
        let mut codewords: Vec<u8> = Vec::new();
        let mut pos: usize = 2;
        while pos + 9 <= stream.len()
            invariant
                stream@.len() <= 20000,
                2 <= pos,
                pos <= stream@.len() + 9,
                codewords@.len() <= pos,
                all_codewords(codewords@),
            decreases stream@.len() + 9 - pos,
        {
            let pat = read_pattern(&stream, pos);
            match codeword_for_pattern(pat) {
                Some(cw) => {
                    codewords.push(cw);
                    pos = pos + 9;
                },
                None => {
                    break;
                },
            }
        }
        if codewords.len() == 0 {
            return Err(Error::Undecodable);
        }
        let total = codewords.len();
        let data_length = match data_length_for(total) {
            Some(dl) => dl,
            None => {
                return Err(Error::Undecodable);
            },
        };
        let ecc_length = total - data_length;
        // Recompute the check words over [mask, masked data].
        let mut block: Vec<u8> = Vec::new();
        block.push(mask);
        let mut j: usize = 0;
        while j < data_length
            invariant
                j <= data_length,
                data_length <= total,
                total == codewords@.len(),
                block@.len() == j + 1,
            decreases data_length - j,
        {
            block.push(codewords[j]);
            j = j + 1;
        }
        let mut k: usize = 0;
        while k < ecc_length
            invariant
                k <= ecc_length,
                block@.len() == data_length + 1 + k,
            decreases ecc_length - k,
        {
            block.push(0);
            k = k + 1;
        }
        proof {
            let nw = data_length + 1 + ecc_length;
            assert(step_of_ok(data_length as int, ecc_length as int)) by (nonlinear_arith)
                requires
                    ecc_length == 3 + data_length / 2,
                    data_length >= 1,
            ;
        }
        rsencode(data_length + 1, ecc_length, &mut block);
        let mut e: usize = 0;
        while e < ecc_length
            invariant
                e <= ecc_length,
                block@.len() == data_length + 1 + ecc_length,
                total == codewords@.len(),
                total == data_length + ecc_length,
            decreases ecc_length - e,
        {
            if block[data_length + 1 + e] != codewords[data_length + e] {
                return Err(Error::ErrorCorrectionFailed);
            }
            e = e + 1;
        }
        // Remove the mask.
        let mut masked_data: Vec<u8> = Vec::new();
        let mut q: usize = 0;
        while q < data_length
            invariant
                q <= data_length,
                data_length <= total,
                total == codewords@.len(),
                total <= 20010,
                masked_data@.len() == q,
            decreases data_length - q,
        {
            masked_data.push(codewords[q]);
            q = q + 1;
        }
        let data = unmask(masked_data.as_slice(), mask);
        let segments = codewords_to_segments(data.as_slice());
        let meta = DotCodeMeta { width, height, mask, codewords: data };
        Ok(Symbol::new(Symbology::DotCode, segments, SymbolMeta::DotCode(meta)))
    }

    /// Decode an encoding (matrices only).
    pub fn decode(&self, encoding: &Encoding) -> (r: Result<Symbol, Error>)
        requires
            encoding matches Encoding::Matrix(m) ==> m.wf(),
        ensures
            encoding is Linear ==> r == Err::<Symbol, Error>(Error::Unsupported),
            encoding matches Encoding::Matrix(m) ==> (shape_error(m.width as int, m.height as int) ==> r
                == Err::<Symbol, Error>(Error::Undecodable)),
    {
        match encoding {
            Encoding::Matrix(m) => self.decode_matrix(m),
            Encoding::Linear(_) => Err(Error::Unsupported),
        }
    }
}

/// The interleaving of `data_length + 1` words with `ecc_length` check words is
/// within what [`rsencode`] takes.
pub open spec fn step_of_ok(data_length: int, ecc_length: int) -> bool {
    let nw = data_length + 1 + ecc_length;
    nw <= 0xffff ==> (nw + 111) / 112 <= data_length + 1 && (nw + 111) / 112 <= ecc_length
}

} // verus!
