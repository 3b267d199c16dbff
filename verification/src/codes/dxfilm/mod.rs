//! DX Film Edge — the barcode printed along the edge of 35mm film.
//!
//! A symbol is two parallel tracks, modelled as a two-row [`BitMatrix`]:
//! - row 0 — the clock track (a 5-module bar, evenly spaced single modules, a
//!   3-module bar);
//! - row 1 — the data track: start pattern `10101`, the data bits (dark = 1), stop
//!   pattern `101`.
//!
//! With a frame number there are 23 data bits: separator, DX part 1 (7 bits, most
//! significant first), separator, DX part 2 (4 bits), frame number (6 bits),
//! half-frame flag, separator, even parity over bits 0..=20, separator. Without a
//! frame number there are 15: the run ends after part 2 with the parity over bits
//! 0..=12 and a separator. The payload is the canonical text `part1-part2`, or
//! `part1-part2/frame` with a trailing `A` for a half frame.
use vstd::prelude::*;
use vstd::string::StringSliceAdditionalSpecFns;
use crate::error::Error;
use crate::output::{BitMatrix, Encoding};
use crate::segment::{Mode, Segment, payload_of};
use crate::symbol::{Symbol, SymbolMeta};
use crate::symbology::Symbology;
use crate::text::{dec_string, parse_u32, parses_u32, parsed_u32, u32_to_decimal, lemma_dec_string};

verus! {

/// Number of data bits with the frame number.
pub const DATA_LEN_FN: usize = 23;
/// Number of data bits without the frame number.
pub const DATA_LEN_NO_FN: usize = 15;

/// The parsed contents of a DX Film Edge symbol.
#[derive(Debug, Clone, Copy, PartialEq, Eq)]
pub struct DxData {
    /// DX number part 1 (product number), 1..=127.
    pub part1: u8,
    /// DX number part 2 (generation number), 0..=15.
    pub part2: u8,
    /// Frame number and half-frame flag, if the frame-number variant is used.
    pub frame: Option<(u8, bool)>,
}

/// Every field is in range.
pub open spec fn dx_valid(d: DxData) -> bool {
    &&& 1 <= d.part1 <= 127
    &&& d.part2 <= 15
    &&& (d.frame matches Some((f, _h)) ==> f <= 63)
}

/// Number of data bits of `d`'s variant.
pub open spec fn data_len_spec(d: DxData) -> int {
    if d.frame is Some { 23 } else { 15 }
}

/// Bit `k` of `v`.
pub open spec fn bit_of(v: u32, k: u32) -> bool {
    (v >> k) & 1u32 == 1u32
}

/// The frame number (0 without one).
pub open spec fn frame_no(d: DxData) -> u8 {
    match d.frame {
        Some((f, _h)) => f,
        None => 0,
    }
}

/// The half-frame flag (`false` without a frame number).
pub open spec fn half_frame(d: DxData) -> bool {
    match d.frame {
        Some((_f, h)) => h,
        None => false,
    }
}

/// The data bits before the parity bit is set.
pub open spec fn raw_bits(d: DxData) -> Seq<bool> {
    Seq::new(data_len_spec(d) as nat, |i: int|
        if 1 <= i <= 7 {
            bit_of(d.part1 as u32, (7 - i) as u32)
        } else if 9 <= i <= 12 {
            bit_of(d.part2 as u32, (12 - i) as u32)
        } else if 13 <= i <= 18 && d.frame is Some {
            bit_of(frame_no(d) as u32, (18 - i) as u32)
        } else if i == 19 && d.frame is Some {
            half_frame(d)
        } else {
            false
        })
}

/// Number of set bits.
pub open spec fn ones(s: Seq<bool>) -> int
    decreases s.len(),
{
    if s.len() == 0 {
        0
    } else {
        ones(s.drop_last()) + (if s.last() { 1int } else { 0int })
    }
}

/// Index of the parity bit.
pub open spec fn parity_index(d: DxData) -> int {
    data_len_spec(d) - 2
}

/// The data-track bits, including separators and the even-parity bit.
pub open spec fn data_bits_spec(d: DxData) -> Seq<bool> {
    let raw = raw_bits(d);
    raw.update(parity_index(d), ones(raw.take(parity_index(d))) % 2 == 1)
}

/// Counting the set bits of a sequence with one more bit at its end.
proof fn lemma_ones_push(s: Seq<bool>, b: bool)
    ensures
        ones(s.push(b)) == ones(s) + (if b { 1int } else { 0int }),
{
    assert(s.push(b).drop_last() =~= s);
}

/// `ones` counts exactly the set bits: it is the length of the bits kept by a
/// filter on being set.
pub proof fn lemma_ones_counts_set(s: Seq<bool>)
    ensures
        ones(s) == s.filter(|b: bool| b).len(),
    decreases s.len(),
{
    reveal(Seq::filter);
    if s.len() > 0 {
        lemma_ones_counts_set(s.drop_last());
    }
}

/// The drawn data track has even parity: among data bits `0..=parity_index` (the
/// parity bit included) an even number are set.
pub proof fn lemma_data_track_even(d: DxData)
    ensures
        ones(data_bits_spec(d).take(parity_index(d) + 1)) % 2 == 0,
{
    let raw = raw_bits(d);
    let pi = parity_index(d);
    let bits = data_bits_spec(d);
    let p = ones(raw.take(pi)) % 2 == 1;
    assert(bits.take(pi + 1) =~= raw.take(pi).push(p));
    lemma_ones_push(raw.take(pi), p);
}

/// The clock track of a `w`-module symbol: runs `5, 1, 1, …, 1, 3`, the first dark.
pub open spec fn clock_spec(w: int) -> Seq<bool> {
    Seq::new(w as nat, |x: int|
        x < 5 || (5 <= x < w - 3 && (x - 5) % 2 == 1) || (x >= w - 3 && (w - 8) % 2 == 1))
}

/// The data track: start `10101`, data bits, stop `101`.
pub open spec fn track_spec(d: DxData) -> Seq<bool> {
    seq![true, false, true, false, true] + data_bits_spec(d) + seq![true, false, true]
}

/// The canonical text: `part1-part2`, then `/frame` and `A` for a half frame.
pub open spec fn dx_text(d: DxData) -> Seq<u8> {
    dec_string(d.part1 as nat) + seq![45u8] + dec_string(d.part2 as nat) + match d.frame {
        Some((f, h)) => seq![47u8] + dec_string(f as nat) + (if h { seq![65u8] } else { Seq::empty() }),
        None => Seq::empty(),
    }
}

/// Does matrix `m` draw exactly `d`?
pub open spec fn draws(m: BitMatrix, d: DxData) -> bool {
    let w = 8 + data_len_spec(d);
    &&& m.width == w
    &&& m.height == 2
    &&& m.bits@ == clock_spec(w) + track_spec(d)
}

/// Number of set bits among the first `n` of `bits`.
fn count_ones(bits: &[bool], n: usize) -> (c: usize)
    requires
        n <= bits@.len(),
    ensures
        c == ones(bits@.take(n as int)),
        c <= n,
{
    let mut c: usize = 0;
    let mut i: usize = 0;
    while i < n
        invariant
            i <= n,
            n <= bits@.len(),
            c == ones(bits@.take(i as int)),
            c <= i,
        decreases n - i,
    {
        proof {
            assert(bits@.take(i + 1).drop_last() =~= bits@.take(i as int));
        }
        if bits[i] {
            c = c + 1;
        }
        i = i + 1;
    }
    c
}

/// Even parity: `true` when an odd number of the first `n` bits are set (so that
/// the total including the parity bit is even).
fn even_parity(bits: &[bool], n: usize) -> (p: bool)
    requires
        n <= bits@.len(),
    ensures
        p == (ones(bits@.take(n as int)) % 2 == 1),
{
    count_ones(bits, n) % 2 == 1
}

/// Write `value` into `bits[start..start+len]`, most-significant bit first.
fn write_field(bits: &mut Vec<bool>, start: usize, len: u32, value: u32)
    requires
        1 <= len <= 8,
        start + len <= old(bits)@.len(),
    ensures
        final(bits)@.len() == old(bits)@.len(),
        forall|i: int| 0 <= i < final(bits)@.len() ==> #[trigger] final(bits)@[i] == (if start <= i < start + len {
            bit_of(value, (len - 1 - (i - start)) as u32)
        } else {
            old(bits)@[i]
        }),
{
    let bl = bits.len();
    let mut i: u32 = 0;
    while i < len
        invariant
            bl == bits@.len(),
            i <= len,
            1 <= len <= 8,
            start + len <= bits@.len(),
            bits@.len() == old(bits)@.len(),
            forall|k: int| 0 <= k < bits@.len() ==> #[trigger] bits@[k] == (if start <= k < start + i {
                bit_of(value, (len - 1 - (k - start)) as u32)
            } else {
                old(bits)@[k]
            }),
        decreases len - i,
    {
        bits.set(start + i as usize, (value >> (len - 1 - i)) & 1 == 1);
        i = i + 1;
    }
}

/// The value read from `len` bits at `start`, most significant first.
pub open spec fn read_spec(bits: Seq<bool>, start: int, len: nat) -> u32
    decreases len,
{
    if len == 0 {
        0
    } else {
        ((read_spec(bits, start, (len - 1) as nat) << 1u32) | (if bits[start + len - 1] { 1u32 } else { 0u32 })) as u32
    }
}

/// Read `len` bits from `bits[start..]`, most-significant bit first.
fn read_field(bits: &[bool], start: usize, len: usize) -> (v: u32)
    requires
        start + len <= bits@.len(),
    ensures
        v == read_spec(bits@, start as int, len as nat),
{
    let bl = bits.len();
    let mut v: u32 = 0;
    let mut i: usize = 0;
    while i < len
        invariant
            bl == bits@.len(),
            i <= len,
            start + len <= bits@.len(),
            v == read_spec(bits@, start as int, i as nat),
        decreases len - i,
    {
        let b: u32 = if bits[start + i] { 1 } else { 0 };
        v = (v << 1) | b;
        i = i + 1;
    }
    v
}

impl DxData {
    /// Number of data bits of this variant.
    fn data_len(&self) -> (n: usize)
        ensures
            n == data_len_spec(*self),
    {
        if self.frame.is_some() { DATA_LEN_FN } else { DATA_LEN_NO_FN }
    }

    /// The data-track bits (one entry per module, dark = `true`), including
    /// separators and the even-parity bit.
    fn data_bits(&self) -> (bits: Vec<bool>)
        ensures
            bits@ == data_bits_spec(*self),
    {
        let n = self.data_len();
        let mut bits: Vec<bool> = Vec::new();
        let mut z: usize = 0;
        while z < n
            invariant
                z <= n,
                bits@.len() == z,
                forall|k: int| 0 <= k < z ==> !#[trigger] bits@[k],
            decreases n - z,
        {
            bits.push(false);
            z = z + 1;
        }
        write_field(&mut bits, 1, 7, self.part1 as u32);
        write_field(&mut bits, 9, 4, self.part2 as u32);
        let pi: usize;
        match self.frame {
            Some((frame, half)) => {
                write_field(&mut bits, 13, 6, frame as u32);
                bits.set(19, half);
                pi = 21;
            },
            None => {
                pi = 13;
            },
        }
        proof {
            assert(bits@ =~= raw_bits(*self));
        }
        let p = even_parity(bits.as_slice(), pi);
        bits.set(pi, p);
        bits
    }

    /// The canonical ASCII text form, e.g. `115-10` or `115-10/11A`.
    fn to_text(&self) -> (t: Vec<u8>)
        ensures
            t@ == dx_text(*self),
    {
        let mut s = u32_to_decimal(self.part1 as u32);
        s.push(45);
        append(&mut s, u32_to_decimal(self.part2 as u32).as_slice());
        match self.frame {
            Some((frame, half)) => {
                s.push(47);
                append(&mut s, u32_to_decimal(frame as u32).as_slice());
                if half {
                    s.push(65);
                }
            },
            None => {},
        }
        proof {
            assert(s@ =~= dx_text(*self));
        }
        s
    }
}

/// Append `src` to `dst`.
fn append(dst: &mut Vec<u8>, src: &[u8])
    ensures
        final(dst)@ == old(dst)@ + src@,
{
    let mut i: usize = 0;
    while i < src.len()
        invariant
            i <= src@.len(),
            dst@ == old(dst)@ + src@.take(i as int),
        decreases src@.len() - i,
    {
        dst.push(src[i]);
        i = i + 1;
        proof {
            assert(dst@ =~= old(dst)@ + src@.take(i as int));
        }
    }
    proof {
        assert(src@.take(src@.len() as int) =~= src@);
    }
}

/// The clock track for a symbol of `width` modules: a 5-module bar, then evenly
/// spaced single modules, then a 3-module bar.
fn clock_row(width: usize) -> (row: Vec<bool>)
    requires
        width >= 8,
    ensures
        row@ == clock_spec(width as int),
{
    let mut row: Vec<bool> = Vec::new();
    let mut x: usize = 0;
    while x < width
        invariant
            x <= width,
            width >= 8,
            row@ == clock_spec(width as int).take(x as int),
        decreases width - x,
    {
        let dark = x < 5 || (x < width - 3 && (x - 5) % 2 == 1) || (x >= width - 3 && (width - 8) % 2 == 1);
        row.push(dark);
        x = x + 1;
        proof {
            assert(row@ =~= clock_spec(width as int).take(x as int));
        }
    }
    proof {
        assert(clock_spec(width as int).take(width as int) =~= clock_spec(width as int));
    }
    row
}

/// The full 2-row matrix for `dx`.
fn render(dx: &DxData) -> (m: BitMatrix)
    ensures
        draws(m, *dx),
        m.wf(),
        m.quiet_zone == 0,
{
    let data = dx.data_bits();
    let width = 5 + data.len() + 3;
    let mut bits = clock_row(width);
    bits.push(true);
    bits.push(false);
    bits.push(true);
    bits.push(false);
    bits.push(true);
    append_bools(&mut bits, data.as_slice());
    bits.push(true);
    bits.push(false);
    bits.push(true);
    proof {
        assert(bits@ =~= clock_spec(width as int) + track_spec(*dx));
        assert(width * 2 == width + width) by (nonlinear_arith);
        assert(bits@.len() == width * 2);
    }
    BitMatrix { width, height: 2, quiet_zone: 0, bits }
}

/// Append `src` to `dst`.
fn append_bools(dst: &mut Vec<bool>, src: &[bool])
    ensures
        final(dst)@ == old(dst)@ + src@,
{
    let mut i: usize = 0;
    while i < src.len()
        invariant
            i <= src@.len(),
            dst@ == old(dst)@ + src@.take(i as int),
        decreases src@.len() - i,
    {
        dst.push(src[i]);
        i = i + 1;
        proof {
            assert(dst@ =~= old(dst)@ + src@.take(i as int));
        }
    }
    proof {
        assert(src@.take(src@.len() as int) =~= src@);
    }
}


// ---------- Text form ----------

/// `i` is the first position of `c` in `b`.
pub open spec fn is_first(b: Seq<u8>, c: u8, i: int) -> bool {
    0 <= i < b.len() && b[i] == c && forall|j: int| 0 <= j < i ==> b[j] != c
}

/// The first position of `c` in `b`, if any.
pub open spec fn first_index(b: Seq<u8>, c: u8) -> Option<int> {
    if exists|i: int| is_first(b, c, i) {
        Some(choose|i: int| is_first(b, c, i))
    } else {
        None
    }
}

/// The value `str::parse::<u8>` yields for `b`, if it accepts it.
pub open spec fn u8_of(b: Seq<u8>) -> Option<u8> {
    if parses_u32(b) && parsed_u32(b) <= 255 { Some(parsed_u32(b) as u8) } else { None }
}

/// Parse the frame part `digits[A]` after the `/`.
pub open spec fn frame_of(fs: Seq<u8>) -> Result<(u8, bool), Error> {
    let half = fs.len() > 0 && fs.last() == 65;
    let digits = if half { fs.drop_last() } else { fs };
    match u8_of(digits) {
        None => Err(Error::InvalidData),
        Some(f) => if f > 63 { Err(Error::Capacity) } else { Ok((f, half)) },
    }
}

/// Parse the canonical text form, validating every field range: `part1-part2`
/// optionally followed by `/frame` and `A`.
pub open spec fn dx_parse(b: Seq<u8>) -> Result<DxData, Error> {
    match first_index(b, 45) {
        None => Err(Error::InvalidData),
        Some(i) => {
            let p1 = b.take(i);
            let rest = b.skip(i + 1);
            match u8_of(p1) {
                None => Err(Error::InvalidData),
                Some(part1) => if part1 == 0 || part1 > 127 {
                    Err(Error::Capacity)
                } else {
                    let (p2, fr) = match first_index(rest, 47) {
                        Some(j) => (rest.take(j), Some(frame_of(rest.skip(j + 1)))),
                        None => (rest, None),
                    };
                    match fr {
                        Some(Err(e)) => Err(e),
                        _ => match u8_of(p2) {
                            None => Err(Error::InvalidData),
                            Some(part2) => if part2 > 15 {
                                Err(Error::Capacity)
                            } else {
                                Ok(DxData {
                                    part1,
                                    part2,
                                    frame: match fr {
                                        Some(Ok(f)) => Some(f),
                                        _ => None,
                                    },
                                })
                            },
                        },
                    }
                },
            }
        },
    }
}

/// The first position of `c` in `b`.
fn find_byte(b: &[u8], c: u8) -> (r: Option<usize>)
    ensures
        r matches Some(i) ==> first_index(b@, c) == Some(i as int) && i < b@.len(),
        r is None ==> first_index(b@, c) is None,
{
    let mut i: usize = 0;
    while i < b.len()
        invariant
            i <= b@.len(),
            forall|j: int| 0 <= j < i ==> b@[j] != c,
        decreases b@.len() - i,
    {
        if b[i] == c {
            proof {
                assert(is_first(b@, c, i as int));
                let k = choose|k: int| is_first(b@, c, k);
                assert(k == i);
            }
            return Some(i);
        }
        i = i + 1;
    }
    None
}

/// `str::parse::<u8>` on ASCII bytes.
fn parse_u8(b: &[u8]) -> (r: Option<u8>)
    ensures
        r == u8_of(b@),
{
    match parse_u32(b) {
        Some(v) => if v <= 255 { Some(v as u8) } else { None },
        None => None,
    }
}

/// The bytes `b[lo..hi]`.
fn slice_vec(b: &[u8], lo: usize, hi: usize) -> (v: Vec<u8>)
    requires
        lo <= hi <= b@.len(),
    ensures
        v@ == b@.subrange(lo as int, hi as int),
{
    let mut v: Vec<u8> = Vec::new();
    let mut i: usize = lo;
    while i < hi
        invariant
            lo <= i <= hi,
            hi <= b@.len(),
            v@ == b@.subrange(lo as int, i as int),
        decreases hi - i,
    {
        v.push(b[i]);
        i = i + 1;
        proof {
            assert(v@ =~= b@.subrange(lo as int, i as int));
        }
    }
    v
}

/// Parse the frame part after the `/`.
fn parse_frame(fs: &[u8]) -> (r: Result<(u8, bool), Error>)
    ensures
        r == frame_of(fs@),
{
    let half = fs.len() > 0 && fs[fs.len() - 1] == 65;
    let digits = if half { slice_vec(fs, 0, fs.len() - 1) } else { slice_vec(fs, 0, fs.len()) };
    proof {
        assert(half ==> digits@ =~= fs@.drop_last());
        assert(!half ==> digits@ =~= fs@);
    }
    match parse_u8(digits.as_slice()) {
        None => Err(Error::InvalidData),
        Some(f) => if f > 63 { Err(Error::Capacity) } else { Ok((f, half)) },
    }
}

impl DxData {
    /// Parse the canonical text form, validating every field range.
    fn parse(text: &[u8]) -> (r: Result<DxData, Error>)
        ensures
            r == dx_parse(text@),
    {
        let tl = text.len();
        let i = match find_byte(text, 45) {
            Some(i) => i,
            None => {
                return Err(Error::InvalidData);
            },
        };
        let p1 = slice_vec(text, 0, i);
        let rest = slice_vec(text, i + 1, tl);
        proof {
            assert(p1@ =~= text@.take(i as int));
            assert(rest@ =~= text@.skip(i + 1));
        }
        let part1 = match parse_u8(p1.as_slice()) {
            Some(v) => v,
            None => {
                return Err(Error::InvalidData);
            },
        };
        if part1 == 0 || part1 > 127 {
            return Err(Error::Capacity);
        }
        let (p2, frame) = match find_byte(rest.as_slice(), 47) {
            Some(j) => {
                let p2 = slice_vec(rest.as_slice(), 0, j);
                let fs = slice_vec(rest.as_slice(), j + 1, rest.len());
                proof {
                    assert(p2@ =~= rest@.take(j as int));
                    assert(fs@ =~= rest@.skip(j + 1));
                }
                match parse_frame(fs.as_slice()) {
                    Ok(f) => (p2, Some(f)),
                    Err(e) => {
                        return Err(e);
                    },
                }
            },
            None => (slice_vec(rest.as_slice(), 0, rest.len()), None),
        };
        proof {
            assert(rest@.subrange(0, rest@.len() as int) =~= rest@);
        }
        let part2 = match parse_u8(p2.as_slice()) {
            Some(v) => v,
            None => {
                return Err(Error::InvalidData);
            },
        };
        if part2 > 15 {
            return Err(Error::Capacity);
        }
        Ok(DxData { part1, part2, frame })
    }
}


// ---------- Bit fields ----------

/// Reading `len` bits yields a value below `2^len` whose bit `k` is the module
/// `len - 1 - k` places after `start`.
proof fn lemma_read_bits(bits: Seq<bool>, start: int, len: nat)
    requires
        len <= 8,
        0 <= start,
        start + len <= bits.len(),
    ensures
        read_spec(bits, start, len) < (1u32 << (len as u32)),
        forall|k: int| 0 <= k < len ==> #[trigger] bit_of(read_spec(bits, start, len), k as u32) == bits[start + len - 1 - k],
    decreases len,
{
    if len == 0 {
        assert((1u32 << 0u32) == 1u32) by (bit_vector);
    } else {
        let l1 = (len - 1) as nat;
        lemma_read_bits(bits, start, l1);
        let r = read_spec(bits, start, l1);
        let b: u32 = if bits[start + len - 1] { 1u32 } else { 0u32 };
        let n1 = l1 as u32;
        assert(r < (1u32 << n1) && n1 < 8 && b <= 1 ==> ((r << 1u32) | b) < (1u32 << ((n1 + 1) as u32))) by (bit_vector);
        assert(read_spec(bits, start, len) == (r << 1u32) | b);
        assert(r < 256u32) by (bit_vector)
            requires
                r < (1u32 << n1),
                n1 < 8,
        ;
        assert forall|k: int| 0 <= k < len implies #[trigger] bit_of(read_spec(bits, start, len), k as u32) == bits[start + len - 1 - k] by {
            let ku = k as u32;
            if k == 0 {
                assert(b <= 1 ==> ((((r << 1u32) | b) >> 0u32) & 1u32 == 1u32) == (b == 1u32)) by (bit_vector);
            } else {
                assert(r < 256 && b <= 1 && 1 <= ku < 8 ==> (((r << 1u32) | b) >> ku) & 1u32 == (r >> ((ku - 1) as u32)) & 1u32) by (bit_vector);
                assert(bit_of(r, (k - 1) as u32) == bits[start + l1 - 1 - (k - 1)]);
            }
        }
    }
}

/// Reading back the bits of `v` yields `v`.
proof fn lemma_read_value(bits: Seq<bool>, start: int, len: nat, v: u32)
    requires
        1 <= len <= 8,
        0 <= start,
        start + len <= bits.len(),
        v < (1u32 << (len as u32)),
        forall|i: int| 0 <= i < len ==> #[trigger] bits[start + i] == bit_of(v, (len - 1 - i) as u32),
    ensures
        read_spec(bits, start, len) == v,
{
    lemma_read_prefix(bits, start, len, v, len);
    assert(v >> 0u32 == v) by (bit_vector);
}

/// The first `j` bits read back the top `j` bits of `v`.
proof fn lemma_read_prefix(bits: Seq<bool>, start: int, len: nat, v: u32, j: nat)
    requires
        1 <= len <= 8,
        j <= len,
        0 <= start,
        start + len <= bits.len(),
        v < (1u32 << (len as u32)),
        forall|i: int| 0 <= i < len ==> #[trigger] bits[start + i] == bit_of(v, (len - 1 - i) as u32),
    ensures
        read_spec(bits, start, j) == v >> ((len - j) as u32),
    decreases j,
{
    let lu = len as u32;
    if j == 0 {
        assert(v < (1u32 << lu) && lu <= 8 ==> v >> lu == 0u32) by (bit_vector);
    } else {
        lemma_read_prefix(bits, start, len, v, (j - 1) as nat);
        let t = (len - j) as u32;
        assert(bits[start + (j - 1)] == bit_of(v, t));
        assert(t < 8 ==> (((v >> ((t + 1) as u32)) << 1u32) | (if (v >> t) & 1u32 == 1u32 { 1u32 } else { 0u32 })) == v >> t) by (bit_vector);
    }
}


// ---------- Decoding model ----------

/// Row `y` of `m`.
pub open spec fn row(m: BitMatrix, y: int) -> Seq<bool> {
    Seq::new(m.width as nat, |x: int| m.at(x, y))
}

/// The data bits of `m`'s data track (meaningful when the width is valid).
pub open spec fn track_bits(m: BitMatrix) -> Seq<bool> {
    row(m, 1).subrange(5, m.width - 3)
}

/// The separator positions of a data track of `dl` bits are light.
pub open spec fn separators_light(bits: Seq<bool>, dl: int) -> bool {
    if dl == 23 { !bits[0] && !bits[8] && !bits[20] && !bits[22] } else { !bits[0] && !bits[8] && !bits[14] }
}

/// Every structural check a reader makes passes on `m`.
pub open spec fn checks_ok(m: BitMatrix) -> bool {
    let w = m.width as int;
    let dl = w - 8;
    let bits = track_bits(m);
    &&& m.height == 2
    &&& (dl == 23 || dl == 15)
    &&& row(m, 0) == clock_spec(w)
    &&& row(m, 1).take(5) == seq![true, false, true, false, true]
    &&& row(m, 1).skip(w - 3) == seq![true, false, true]
    &&& separators_light(bits, dl)
    &&& bits[dl - 2] == (ones(bits.take(dl - 2)) % 2 == 1)
    &&& read_spec(bits, 1, 7) != 0
}

/// The decoder accepts only tracks of even parity: on a matrix that passes the
/// checks, an even number of data bits up to and including the parity bit are set.
pub proof fn lemma_accepted_track_even(m: BitMatrix)
    requires
        checks_ok(m),
    ensures
        ones(track_bits(m).take(m.width - 8 - 1)) % 2 == 0,
{
    let bits = track_bits(m);
    let dl = m.width - 8;
    assert(bits.take(dl - 1) =~= bits.take(dl - 2).push(bits[dl - 2]));
    lemma_ones_push(bits.take(dl - 2), bits[dl - 2]);
}

/// The contents read from a matrix that passes the checks.
pub open spec fn read_dx(m: BitMatrix) -> DxData {
    let bits = track_bits(m);
    DxData {
        part1: read_spec(bits, 1, 7) as u8,
        part2: read_spec(bits, 9, 4) as u8,
        frame: if m.width == 31 { Some((read_spec(bits, 13, 6) as u8, bits[19])) } else { None },
    }
}

/// The symbol a decoder reports for `d`.
pub open spec fn symbol_of(s: Symbol, d: DxData) -> bool {
    &&& s.symbology == Symbology::DxFilmEdge
    &&& s.segments@.len() == 1
    &&& s.segments@[0].mode == Mode::Byte
    &&& s.segments@[0].data@ == dx_text(d)
    &&& s.meta == SymbolMeta::DxFilm(DxFilmMeta { has_frame_number: d.frame is Some })
}

/// The two rows of a two-row matrix make up its bits.
proof fn lemma_rows(m: BitMatrix)
    requires
        m.wf(),
        m.height == 2,
    ensures
        m.bits@ == row(m, 0) + row(m, 1),
{
    assert(m.bits@ =~= row(m, 0) + row(m, 1));
}

/// A matrix that draws valid contents passes every check and reads back to them.
proof fn lemma_draws_checks(m: BitMatrix, d: DxData)
    requires
        m.wf(),
        dx_valid(d),
        draws(m, d),
    ensures
        checks_ok(m),
        read_dx(m) == d,
{
    let w = m.width as int;
    let dl = data_len_spec(d);
    lemma_rows(m);
    assert(row(m, 0) =~= clock_spec(w));
    assert(row(m, 1) =~= track_spec(d));
    let bits = track_bits(m);
    assert(bits =~= data_bits_spec(d));
    let raw = raw_bits(d);
    let pi = parity_index(d);
    assert(bits.take(pi) =~= raw.take(pi));
    assert(row(m, 1).take(5) =~= seq![true, false, true, false, true]);
    assert(row(m, 1).skip(w - 3) =~= seq![true, false, true]);
    assert((d.part1 as u32) < (1u32 << 7u32)) by {
        assert((1u32 << 7u32) == 128u32) by (bit_vector);
    }
    lemma_read_value(bits, 1, 7, d.part1 as u32);
    assert((d.part2 as u32) < (1u32 << 4u32)) by {
        assert((1u32 << 4u32) == 16u32) by (bit_vector);
    }
    lemma_read_value(bits, 9, 4, d.part2 as u32);
    match d.frame {
        Some((f, h)) => {
            assert((f as u32) < (1u32 << 6u32)) by {
                assert((1u32 << 6u32) == 64u32) by (bit_vector);
            }
            lemma_read_value(bits, 13, 6, f as u32);
        },
        None => {},
    }
}

/// A matrix that passes every check draws the valid contents it reads back to.
proof fn lemma_checks_draw(m: BitMatrix)
    requires
        m.wf(),
        checks_ok(m),
    ensures
        dx_valid(read_dx(m)),
        draws(m, read_dx(m)),
{
    let w = m.width as int;
    let d = read_dx(m);
    let bits = track_bits(m);
    let dl = w - 8;
    lemma_rows(m);
    lemma_read_bits(bits, 1, 7);
    lemma_read_bits(bits, 9, 4);
    if dl == 23 {
        lemma_read_bits(bits, 13, 6);
    }
    let r1 = read_spec(bits, 1, 7);
    let r2 = read_spec(bits, 9, 4);
    let r3 = read_spec(bits, 13, 6);
    assert(r1 < 128 && r2 < 16 && (dl == 23 ==> r3 < 64)) by {
        assert((1u32 << 7u32) == 128u32) by (bit_vector);
        assert((1u32 << 4u32) == 16u32) by (bit_vector);
        assert((1u32 << 6u32) == 64u32) by (bit_vector);
    }
    assert(data_len_spec(d) == dl);
    let raw = raw_bits(d);
    let pi = dl - 2;
    assert forall|i: int| 0 <= i < dl && i != pi implies #[trigger] raw[i] == bits[i] by {
        if 1 <= i <= 7 {
            assert(bit_of(r1, (7 - i) as u32) == bits[1 + 7 - 1 - (7 - i)]);
        } else if 9 <= i <= 12 {
            assert(bit_of(r2, (12 - i) as u32) == bits[9 + 4 - 1 - (12 - i)]);
        } else if 13 <= i <= 18 && dl == 23 {
            assert(bit_of(r3, (18 - i) as u32) == bits[13 + 6 - 1 - (18 - i)]);
        }
    }
    assert(raw.take(pi) =~= bits.take(pi));
    assert(data_bits_spec(d) =~= bits);
    assert(row(m, 1) =~= track_spec(d));
    assert(row(m, 0) =~= clock_spec(w));
}

/// Parameters required to re-encode a DX Film Edge symbol identically.
#[derive(Debug, Clone, PartialEq, Eq, Default, Structural)]
pub struct DxFilmMeta {
    /// `true` for the variant that carries a 6-bit frame number (31-module tracks).
    pub has_frame_number: bool,
}

/// The symbol for validated contents.
fn dx_symbol(d: &DxData) -> (s: Symbol)
    ensures
        symbol_of(s, *d),
{
    let mut segs: Vec<Segment> = Vec::new();
    segs.push(Segment::byte(d.to_text()));
    Symbol::new(Symbology::DxFilmEdge, segs, SymbolMeta::DxFilm(DxFilmMeta { has_frame_number: d.frame.is_some() }))
}

/// DX Film Edge encoder.
#[derive(Debug, Default, Clone, Copy)]
pub struct DxFilmEncoder;

impl DxFilmEncoder {
    /// A new encoder.
    pub fn new() -> (e: Self) {
        DxFilmEncoder
    }

    /// Build a symbol from the DX number parts and an optional frame number
    /// (`frame`, `half_frame`). `part1` is 1..=127, `part2` 0..=15, the frame
    /// number 0..=63; anything else is [`Error::Capacity`].
    pub fn build(&self, part1: u8, part2: u8, frame: Option<(u8, bool)>) -> (r: Result<Symbol, Error>)
        ensures
            dx_valid(DxData { part1, part2, frame }) ==> (r matches Ok(s) && symbol_of(s, DxData { part1, part2, frame })),
            !dx_valid(DxData { part1, part2, frame }) ==> r == Err::<Symbol, Error>(Error::Capacity),
    {
        let dx = DxData { part1, part2, frame };
        if part1 == 0 || part1 > 127 {
            return Err(Error::Capacity);
        }
        match frame {
            Some((f, _h)) => {
                if f > 63 {
                    return Err(Error::Capacity);
                }
            },
            None => {},
        }
        if part2 > 15 {
            return Err(Error::Capacity);
        }
        Ok(dx_symbol(&dx))
    }

    /// Build from the canonical text form, e.g. `"115-10"` or `"115-10/11A"`.
    pub fn build_text(&self, text: &str) -> (r: Result<Symbol, Error>)
        ensures
            match dx_parse(text.spec_bytes()) {
                Ok(d) => r matches Ok(s) && symbol_of(s, d),
                Err(e) => r == Err::<Symbol, Error>(e),
            },
    {
        let bytes = text_bytes(text);
        let dx = match DxData::parse(bytes.as_slice()) {
            Ok(d) => d,
            Err(e) => {
                return Err(e);
            },
        };
        self.build(dx.part1, dx.part2, dx.frame)
    }

    /// Encode a DX Film Edge symbol into its two-row module grid.
    pub fn encode(&self, symbol: &Symbol) -> (r: Result<Encoding, Error>)
        ensures
            symbol.symbology != Symbology::DxFilmEdge ==> r == Err::<Encoding, Error>(Error::InvalidParameter),
            symbol.symbology == Symbology::DxFilmEdge && has_eci(symbol.segments@) ==> r == Err::<Encoding, Error>(Error::Unsupported),
            symbol.symbology == Symbology::DxFilmEdge && !has_eci(symbol.segments@) ==> match dx_parse(payload_of(symbol.segments@)) {
                Ok(d) => r matches Ok(Encoding::Matrix(m)) && draws(m, d) && m.wf(),
                Err(e) => r == Err::<Encoding, Error>(e),
            },
    {
        if symbol.symbology != Symbology::DxFilmEdge {
            return Err(Error::InvalidParameter);
        }
        let text = match flatten_text(symbol) {
            Ok(t) => t,
            Err(e) => {
                return Err(e);
            },
        };
        let dx = match DxData::parse(text.as_slice()) {
            Ok(d) => d,
            Err(e) => {
                return Err(e);
            },
        };
        Ok(Encoding::Matrix(render(&dx)))
    }
}

/// Some segment is an ECI designator.
pub open spec fn has_eci(segs: Seq<Segment>) -> bool {
    exists|i: int| 0 <= i < segs.len() && #[trigger] segs[i].mode is Eci
}

/// The bytes of `s`.
fn text_bytes(s: &str) -> (v: Vec<u8>)
    ensures
        v@ == s.spec_bytes(),
{
    let b = s.as_bytes();
    let mut v: Vec<u8> = Vec::new();
    append(&mut v, b);
    v
}

/// Concatenate the bytes of all data segments; ECI segments are not supported.
fn flatten_text(symbol: &Symbol) -> (r: Result<Vec<u8>, Error>)
    ensures
        has_eci(symbol.segments@) ==> r == Err::<Vec<u8>, Error>(Error::Unsupported),
        !has_eci(symbol.segments@) ==> (r matches Ok(t) && t@ == payload_of(symbol.segments@)),
{
    let mut i: usize = 0;
    while i < symbol.segments.len()
        invariant
            i <= symbol.segments@.len(),
            forall|j: int| 0 <= j < i ==> !(#[trigger] symbol.segments@[j].mode is Eci),
        decreases symbol.segments@.len() - i,
    {
        if matches!(symbol.segments[i].mode, Mode::Eci(_)) {
            return Err(Error::Unsupported);
        }
        i = i + 1;
    }
    Ok(symbol.payload_bytes())
}

/// DX Film Edge decoder.
#[derive(Debug, Default, Clone, Copy)]
pub struct DxFilmDecoder;

impl DxFilmDecoder {
    /// A new decoder.
    pub fn new() -> (d: Self) {
        DxFilmDecoder
    }

    /// Decode the two-row module grid into a symbol.
    pub fn decode_matrix(&self, m: &BitMatrix) -> (r: Result<Symbol, Error>)
        requires
            m.wf(),
        ensures
            r matches Ok(s) ==> exists|d: DxData| dx_valid(d) && draws(*m, d) && #[trigger] symbol_of(s, d),
            forall|d: DxData| #![trigger draws(*m, d)] dx_valid(d) && draws(*m, d) ==> (r matches Ok(s) && symbol_of(s, d)),
            r is Err ==> r == Err::<Symbol, Error>(Error::Undecodable),
    {
        let ok = check(m);
        if !ok {
            proof {
                assert forall|d: DxData| dx_valid(d) && draws(*m, d) implies false by {
                    lemma_draws_checks(*m, d);
                }
            }
            return Err(Error::Undecodable);
        }
        let width = m.width();
        let dl = width - 8;
        let mut bits: Vec<bool> = Vec::new();
        let mut i: usize = 0;
        while i < dl
            invariant
                i <= dl,
                dl == width - 8,
                width == m.width,
                m.height == 2,
                m.wf(),
                bits@ == track_bits(*m).take(i as int),
            decreases dl - i,
        {
            bits.push(m.get(5 + i, 1));
            i = i + 1;
            proof {
                assert(bits@ =~= track_bits(*m).take(i as int));
            }
        }
        proof {
            assert(bits@ =~= track_bits(*m));
        }
        let part1 = read_field(bits.as_slice(), 1, 7) as u8;
        let part2 = read_field(bits.as_slice(), 9, 4) as u8;
        let frame = if dl == DATA_LEN_FN {
            Some((read_field(bits.as_slice(), 13, 6) as u8, bits[19]))
        } else {
            None
        };
        let dx = DxData { part1, part2, frame };
        proof {
            lemma_checks_draw(*m);
            assert(dx == read_dx(*m));
            assert forall|d: DxData| dx_valid(d) && draws(*m, d) implies d == dx by {
                lemma_draws_checks(*m, d);
            }
        }
        Ok(dx_symbol(&dx))
    }

    /// Decode a DX Film Edge encoding (a two-row matrix).
    pub fn decode(&self, encoding: &Encoding) -> (r: Result<Symbol, Error>)
        requires
            encoding matches Encoding::Matrix(m) ==> m.wf(),
        ensures
            encoding is Linear ==> r == Err::<Symbol, Error>(Error::Unsupported),
            encoding matches Encoding::Matrix(m) ==> (r matches Ok(s) ==> exists|d: DxData| dx_valid(d) && draws(*m, d) && #[trigger] symbol_of(s, d)),
    {
        match encoding {
            Encoding::Matrix(m) => self.decode_matrix(m),
            Encoding::Linear(_) => Err(Error::Unsupported),
        }
    }
}

/// Run every structural check on `m`.
fn check(m: &BitMatrix) -> (ok: bool)
    requires
        m.wf(),
    ensures
        ok == checks_ok(*m),
{
    if m.height() != 2 {
        return false;
    }
    let width = m.width();
    if width < 8 {
        return false;
    }
    let dl = width - 8;
    if dl != DATA_LEN_FN && dl != DATA_LEN_NO_FN {
        return false;
    }
    let clock = clock_row(width);
    let mut x: usize = 0;
    while x < width
        invariant
            x <= width,
            width == m.width,
            m.height == 2,
            m.wf(),
            clock@ == clock_spec(width as int),
            forall|k: int| 0 <= k < x ==> m.at(k, 0) == clock@[k],
        decreases width - x,
    {
        if m.get(x, 0) != clock[x] {
            proof {
                assert(row(*m, 0)[x as int] != clock_spec(width as int)[x as int]);
            }
            return false;
        }
        x = x + 1;
    }
    proof {
        assert(row(*m, 0) =~= clock_spec(width as int));
    }
    let start_ok = m.get(0, 1) && !m.get(1, 1) && m.get(2, 1) && !m.get(3, 1) && m.get(4, 1);
    let stop = 5 + dl;
    let stop_ok = m.get(stop, 1) && !m.get(stop + 1, 1) && m.get(stop + 2, 1);
    proof {
        let r1 = row(*m, 1);
        assert(r1.take(5) =~= seq![true, false, true, false, true] <==> start_ok) by {
            if r1.take(5) =~= seq![true, false, true, false, true] {
                assert(r1.take(5)[0] == r1[0]);
            }
        }
        assert(r1.skip(width - 3) =~= seq![true, false, true] <==> stop_ok) by {
            if r1.skip(width - 3) =~= seq![true, false, true] {
                assert(r1.skip(width - 3)[0] == r1[width - 3]);
            }
        }
    }
    if !start_ok || !stop_ok {
        return false;
    }
    let mut bits: Vec<bool> = Vec::new();
    let mut i: usize = 0;
    while i < dl
        invariant
            i <= dl,
            dl == width - 8,
            width == m.width,
            m.height == 2,
            m.wf(),
            bits@ == track_bits(*m).take(i as int),
        decreases dl - i,
    {
        bits.push(m.get(5 + i, 1));
        i = i + 1;
        proof {
            assert(bits@ =~= track_bits(*m).take(i as int));
        }
    }
    proof {
        assert(bits@ =~= track_bits(*m));
    }
    let sep_ok = if dl == DATA_LEN_FN {
        !bits[0] && !bits[8] && !bits[20] && !bits[22]
    } else {
        !bits[0] && !bits[8] && !bits[14]
    };
    if !sep_ok {
        return false;
    }
    let pi = dl - 2;
    if even_parity(bits.as_slice(), pi) != bits[pi] {
        return false;
    }
    read_field(bits.as_slice(), 1, 7) != 0
}

} // verus!
