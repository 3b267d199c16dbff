//! Grid Matrix data encodation: bytes ⇄ the mode-switched bitstream.
//!
//! The bitstream opens with a 4-bit mode selector; each segment's payload is
//! followed by the control that switches to the next segment's mode, and the last
//! one by the end-of-data control of its mode.
//!
//! | Mode      | Content               | Payload                                  |
//! |-----------|-----------------------|------------------------------------------|
//! | `Numeral` | digits `0-9`          | 2-bit last-group length, 10 bits / 3 digits |
//! | `Upper`   | `A-Z` and space       | 5 bits per character                     |
//! | `Lower`   | `a-z` and space       | 5 bits per character                     |
//! | `Byte`    | any byte              | runs of ≤ 511: 9-bit count, 8 bits each, control `6` between runs |
//!
//! `Chinese` and `Mixed` are recognised but not produced; a byte run ends with a
//! 4-bit control, `0` for end of data.
use vstd::prelude::*;
use super::bitstream::{pw2, msb_bits, bval, at, rd, append, read};
use super::bitstream::{lemma_at_concat, lemma_rd_at, lemma_pw2_pos, lemma_bval_bound};
use super::tables::EcLevel;
use crate::error::Error;

verus! {

/// A Grid Matrix data-encodation mode.
#[derive(Debug, Clone, Copy, PartialEq, Eq, Structural)]
pub enum GmMode {
    /// GB2312 double-byte mode (recognised, not produced).
    Chinese,
    /// Digits `0-9`.
    Numeral,
    /// Lowercase `a-z` and space.
    Lower,
    /// Uppercase `A-Z` and space.
    Upper,
    /// The mixed control/symbol set (recognised, not produced).
    Mixed,
    /// Arbitrary 8-bit bytes.
    Byte,
}

/// The specification's mode number (Chinese = 1 … Byte = 6).
pub open spec fn mode_index(m: GmMode) -> u8 {
    match m {
        GmMode::Chinese => 1,
        GmMode::Numeral => 2,
        GmMode::Lower => 3,
        GmMode::Upper => 4,
        GmMode::Mixed => 5,
        GmMode::Byte => 6,
    }
}

impl GmMode {
    /// The 1-based mode number used by the specification tables.
    pub fn index(self) -> (r: u8)
        ensures
            r == mode_index(self),
    {
        match self {
            GmMode::Chinese => 1,
            GmMode::Numeral => 2,
            GmMode::Lower => 3,
            GmMode::Upper => 4,
            GmMode::Mixed => 5,
            GmMode::Byte => 6,
        }
    }
}

/// What follows a segment's payload: the end of data, or the next segment's mode.
#[derive(Debug, Clone, Copy, PartialEq, Eq, Structural)]
pub enum Next {
    /// End of data.
    Eod,
    /// A switch to this mode.
    Mode(GmMode),
}

// ---------------------------------------------------------------------------
// Control codewords
// ---------------------------------------------------------------------------

/// The control `(value, bit length)` that moves from mode number `from` (0 at the
/// start) to mode number `to`; `None` for a move that is never written.
pub open spec fn switch_spec(from: u8, to: u8) -> Option<(u32, usize)> {
    if from == 0 && 1 <= to <= 5 {
        Some((to as u32, 4))
    } else if from == 0 && to == 6 {
        Some((7, 4))
    } else if from == 2 && to == 1 {
        Some((1019, 10))
    } else if from == 2 && 3 <= to <= 6 {
        Some(((1017 + to) as u32, 10))
    } else if (from == 3 || from == 4) && to == 1 {
        Some((28, 5))
    } else if (from == 3 || from == 4) && to == 2 {
        Some((29, 5))
    } else if (from == 3 && to == 4) || (from == 4 && to == 3) {
        Some((30, 5))
    } else if (from == 3 || from == 4) && to == 5 {
        Some((124, 7))
    } else if (from == 3 || from == 4) && to == 6 {
        Some((126, 7))
    } else if from == 6 && 1 <= to <= 5 {
        Some((to as u32, 4))
    } else {
        None
    }
}

/// The end-of-data control `(value, bit length)` of mode number `mode`.
pub open spec fn eod_spec(mode: u8) -> Option<(u32, usize)> {
    if mode == 2 {
        Some((1018, 10))
    } else if mode == 3 || mode == 4 {
        Some((27, 5))
    } else if mode == 6 {
        Some((0, 4))
    } else {
        None
    }
}

/// Switch codeword from mode `from` (0 = start) to mode `to`.
fn switch_code(from: u8, to: u8) -> (r: Option<(u32, usize)>)
    ensures
        r == switch_spec(from, to),
{
    match (from, to) {
        (0, 1) => Some((1, 4)),
        (0, 2) => Some((2, 4)),
        (0, 3) => Some((3, 4)),
        (0, 4) => Some((4, 4)),
        (0, 5) => Some((5, 4)),
        (0, 6) => Some((7, 4)),
        (2, 1) => Some((1019, 10)),
        (2, 3) => Some((1020, 10)),
        (2, 4) => Some((1021, 10)),
        (2, 5) => Some((1022, 10)),
        (2, 6) => Some((1023, 10)),
        (3, 1) => Some((28, 5)),
        (3, 2) => Some((29, 5)),
        (3, 4) => Some((30, 5)),
        (3, 5) => Some((124, 7)),
        (3, 6) => Some((126, 7)),
        (4, 1) => Some((28, 5)),
        (4, 2) => Some((29, 5)),
        (4, 3) => Some((30, 5)),
        (4, 5) => Some((124, 7)),
        (4, 6) => Some((126, 7)),
        (6, 1) => Some((1, 4)),
        (6, 2) => Some((2, 4)),
        (6, 3) => Some((3, 4)),
        (6, 4) => Some((4, 4)),
        (6, 5) => Some((5, 4)),
        _ => None,
    }
}

/// End-of-data terminator for the given current mode.
fn eod_code(mode: u8) -> (r: Option<(u32, usize)>)
    ensures
        r == eod_spec(mode),
{
    match mode {
        2 => Some((1018, 10)),
        3 => Some((27, 5)),
        4 => Some((27, 5)),
        6 => Some((0, 4)),
        _ => None,
    }
}

/// Continuation control inside byte mode: another counted run follows.
pub const BYTE_CONTINUE: u32 = 6;

/// Most bytes in one counted run (9-bit count).
pub const BYTE_BLOCK_MAX: usize = 511;

// ---------------------------------------------------------------------------
// The bitstream, as a function of the segments
// ---------------------------------------------------------------------------

/// The bits of a control `(value, length)`.
pub open spec fn code_bits(c: Option<(u32, usize)>) -> Seq<bool> {
    msb_bits(c.unwrap().0 as int, c.unwrap().1 as nat)
}

/// The 5-bit glyph of byte `b` in the alphabet starting at `base`.
pub open spec fn alpha_glyph(b: u8, base: u8) -> Option<int> {
    if b == 32 {
        Some(26)
    } else if base <= b < base + 26 {
        Some(b - base)
    } else {
        None
    }
}

/// Every byte of `d` has a glyph in the alphabet starting at `base`.
pub open spec fn alpha_ok(d: Seq<u8>, base: u8) -> bool {
    forall|i: int| 0 <= i < d.len() ==> (#[trigger] alpha_glyph(d[i], base)) is Some
}

/// The glyphs of `d`, 5 bits each.
pub open spec fn alpha_bits(d: Seq<u8>, base: u8) -> Seq<bool>
    decreases d.len(),
{
    if d.len() == 0 {
        Seq::empty()
    } else {
        msb_bits(alpha_glyph(d[0], base).unwrap(), 5) + alpha_bits(d.drop_first(), base)
    }
}

/// An ASCII digit.
pub open spec fn is_digit(b: u8) -> bool {
    48 <= b <= 57
}

/// The digits of `d`, in one group of up to three starting at `i`, as a number.
pub open spec fn num_group(d: Seq<u8>, i: int) -> int {
    let t = num_take(d.len() as int, i);
    if t == 1 {
        d[i] - 48
    } else if t == 2 {
        10 * (d[i] - 48) + (d[i + 1] - 48)
    } else {
        100 * (d[i] - 48) + 10 * (d[i + 1] - 48) + (d[i + 2] - 48)
    }
}

/// How many digits the group starting at `i` takes.
pub open spec fn num_take(n: int, i: int) -> int {
    if n - i > 3 {
        3
    } else {
        n - i
    }
}

/// The digit groups of `d` from `i` on, 10 bits each.
pub open spec fn num_groups_bits(d: Seq<u8>, i: int) -> Seq<bool>
    decreases d.len() - i,
{
    if i < 0 || i >= d.len() {
        Seq::empty()
    } else {
        msb_bits(num_group(d, i), 10) + num_groups_bits(d, i + num_take(d.len() as int, i))
    }
}

/// How many digits the last group holds (1 to 3).
pub open spec fn num_last_len(n: int) -> int {
    ((n - 1) % 3) + 1
}

/// A numeral payload: the 2-bit last-group indicator, then the groups.
pub open spec fn num_bits(d: Seq<u8>) -> Seq<bool> {
    msb_bits(3 - num_last_len(d.len() as int), 2) + num_groups_bits(d, 0)
}

/// Bytes, 8 bits each.
pub open spec fn bytes8(s: Seq<u8>) -> Seq<bool>
    decreases s.len(),
{
    if s.len() == 0 {
        Seq::empty()
    } else {
        msb_bits(s[0] as int, 8) + bytes8(s.drop_first())
    }
}

/// The length of the counted run starting at `i`.
pub open spec fn byte_chunk(n: int, i: int) -> int {
    if i >= n {
        0
    } else if n - i > 511 {
        511
    } else {
        n - i
    }
}

/// A byte payload from `i` on: counted runs of up to 511 bytes, the continuation
/// control between them.
pub open spec fn byte_bits(d: Seq<u8>, i: int) -> Seq<bool>
    decreases d.len() - i,
{
    let c = byte_chunk(d.len() as int, i);
    if i < 0 || i + c >= d.len() {
        msb_bits(c, 9) + bytes8(d.subrange(i, i + c))
    } else {
        msb_bits(c, 9) + bytes8(d.subrange(i, i + c)) + msb_bits(6, 4) + byte_bits(d, i + c)
    }
}

/// The payload bits of one segment.
pub open spec fn payload_bits(m: GmMode, d: Seq<u8>) -> Seq<bool> {
    match m {
        GmMode::Numeral => num_bits(d),
        GmMode::Upper => alpha_bits(d, 65),
        GmMode::Lower => alpha_bits(d, 97),
        GmMode::Byte => byte_bits(d, 0),
        _ => Seq::empty(),
    }
}

/// Why a segment's payload cannot be written, if it cannot.
pub open spec fn payload_err(m: GmMode, d: Seq<u8>) -> Option<Error> {
    match m {
        GmMode::Numeral => if d.len() == 0 || exists|i: int| 0 <= i < d.len() && !is_digit(
            #[trigger] d[i],
        ) {
            Some(Error::InvalidData)
        } else {
            None
        },
        GmMode::Upper => if alpha_ok(d, 65) {
            None
        } else {
            Some(Error::InvalidData)
        },
        GmMode::Lower => if alpha_ok(d, 97) {
            None
        } else {
            Some(Error::InvalidData)
        },
        GmMode::Byte => None,
        _ => Some(Error::Unsupported),
    }
}

/// The segments as modes and byte sequences.
pub open spec fn seg_view(s: Seq<(GmMode, Vec<u8>)>) -> Seq<(GmMode, Seq<u8>)> {
    Seq::new(s.len(), |i: int| (s[i].0, s[i].1@))
}

/// The mode number in force before segment `k` (0 at the start).
pub open spec fn prev_index(segs: Seq<(GmMode, Seq<u8>)>, k: int) -> u8 {
    if k <= 0 {
        0
    } else {
        mode_index(segs[k - 1].0)
    }
}

/// The bits written for the first `k` segments: each one's mode switch, then its
/// payload.
pub open spec fn enc_prefix(segs: Seq<(GmMode, Seq<u8>)>, k: int) -> Seq<bool>
    decreases k,
{
    if k <= 0 {
        Seq::empty()
    } else {
        enc_prefix(segs, k - 1) + code_bits(
            switch_spec(prev_index(segs, k - 1), mode_index(segs[k - 1].0)),
        ) + payload_bits(segs[k - 1].0, segs[k - 1].1)
    }
}

/// The whole bitstream of a non-empty segment list.
pub open spec fn stream_spec(segs: Seq<(GmMode, Seq<u8>)>) -> Seq<bool> {
    enc_prefix(segs, segs.len() as int) + code_bits(
        eod_spec(mode_index(segs[segs.len() - 1].0)),
    )
}

/// The first reason, from segment `k` on, why the segments cannot be written.
pub open spec fn enc_fail(segs: Seq<(GmMode, Seq<u8>)>, k: int) -> Option<Error>
    decreases segs.len() - k,
{
    if k < 0 || k >= segs.len() {
        None
    } else if switch_spec(prev_index(segs, k), mode_index(segs[k].0)) is None {
        Some(Error::Unsupported)
    } else if payload_err(segs[k].0, segs[k].1) is Some {
        payload_err(segs[k].0, segs[k].1)
    } else {
        enc_fail(segs, k + 1)
    }
}

/// The segments can be written: there is at least one and none fails.
pub open spec fn encodable(segs: Seq<(GmMode, Seq<u8>)>) -> bool {
    segs.len() > 0 && enc_fail(segs, 0) is None
}

// ---------------------------------------------------------------------------
// Encoding
// ---------------------------------------------------------------------------

fn encode_alpha(bits: &mut Vec<bool>, data: &[u8], base: u8) -> (r: Result<(), Error>)
    requires
        base == 65 || base == 97,
    ensures
        alpha_ok(data@, base) ==> r is Ok && final(bits)@ == old(bits)@ + alpha_bits(data@, base),
        !alpha_ok(data@, base) ==> r == Err::<(), Error>(Error::InvalidData),
{
    let ghost target = old(bits)@ + alpha_bits(data@, base);
    let n = data.len();
    let mut i: usize = 0;
    proof {
        assert(data@.skip(0) =~= data@);
    }
    while i < n
        invariant
            n == data@.len(),
            i <= n,
            base == 65 || base == 97,
            forall|j: int| 0 <= j < i ==> (#[trigger] alpha_glyph(data@[j], base)) is Some,
            bits@ + alpha_bits(data@.skip(i as int), base) == target,
        decreases n - i,
    {
        let b = data[i];
        let g: u8 = if b == 32 {
            26
        } else if base <= b && b < base + 26 {
            b - base
        } else {
            return Err(Error::InvalidData);
        };
        proof {
            let rest = data@.skip(i as int);
            assert(rest[0] == b);
            assert(rest.drop_first() =~= data@.skip(i + 1));
            assert(alpha_bits(rest, base) == msb_bits(g as int, 5) + alpha_bits(
                data@.skip(i + 1),
                base,
            ));
        }
        append(bits, g as u32, 5);
        proof {
            assert(bits@ + alpha_bits(data@.skip(i + 1), base) =~= target);
        }
        i = i + 1;
    }
    proof {
        assert(alpha_bits(data@.skip(n as int), base) =~= Seq::<bool>::empty());
        assert(bits@ =~= target);
    }
    Ok(())
}

fn encode_numeral(bits: &mut Vec<bool>, digits: &[u8]) -> (r: Result<(), Error>)
    ensures
        payload_err(GmMode::Numeral, digits@) is None ==> r is Ok && final(bits)@ == old(bits)@
            + num_bits(digits@),
        payload_err(GmMode::Numeral, digits@) is Some ==> r == Err::<(), Error>(
            Error::InvalidData,
        ),
{
    let n = digits.len();
    if n == 0 {
        return Err(Error::InvalidData);
    }
    let mut k: usize = 0;
    while k < n
        invariant
            n == digits@.len(),
            k <= n,
            forall|j: int| 0 <= j < k ==> is_digit(#[trigger] digits@[j]),
        decreases n - k,
    {
        if digits[k] < 48 || digits[k] > 57 {
            return Err(Error::InvalidData);
        }
        k = k + 1;
    }
    let last_len = ((n - 1) % 3) + 1;
    append(bits, (3 - last_len) as u32, 2);
    let ghost target = bits@ + num_groups_bits(digits@, 0);
    let mut i: usize = 0;
    while i < n
        invariant
            n == digits@.len(),
            i <= n,
            forall|j: int| 0 <= j < n ==> is_digit(#[trigger] digits@[j]),
            bits@ + num_groups_bits(digits@, i as int) == target,
        decreases n - i,
    {
        let take: usize = if n - i > 3 {
            3
        } else {
            n - i
        };
        let d0 = digits[i] as u32 - 48;
        let val: u32 = if take == 1 {
            d0
        } else if take == 2 {
            10 * d0 + (digits[i + 1] as u32 - 48)
        } else {
            100 * d0 + 10 * (digits[i + 1] as u32 - 48) + (digits[i + 2] as u32 - 48)
        };
        proof {
            assert(is_digit(digits@[i as int]));
            if take >= 2 {
                assert(is_digit(digits@[i + 1]));
            }
            if take >= 3 {
                assert(is_digit(digits@[i + 2]));
            }
            assert(val == num_group(digits@, i as int));
            assert(num_groups_bits(digits@, i as int) == msb_bits(val as int, 10)
                + num_groups_bits(digits@, i + take));
        }
        append(bits, val, 10);
        proof {
            assert(bits@ + num_groups_bits(digits@, i + take) =~= target);
        }
        i = i + take;
    }
    proof {
        assert(bits@ =~= target);
        assert(payload_err(GmMode::Numeral, digits@) is None);
    }
    Ok(())
}

fn encode_byte(bits: &mut Vec<bool>, data: &[u8])
    ensures
        final(bits)@ == old(bits)@ + byte_bits(data@, 0),
{
    let ghost target = old(bits)@ + byte_bits(data@, 0);
    let n = data.len();
    let mut i: usize = 0;
    loop
        invariant_except_break
            n == data@.len(),
            i <= n,
            i < n || i == 0,
            bits@ + byte_bits(data@, i as int) == target,
        ensures
            bits@ == target,
        decreases n - i,
    {
        let chunk: usize = if n - i > BYTE_BLOCK_MAX {
            BYTE_BLOCK_MAX
        } else {
            n - i
        };
        let ghost tail: Seq<bool> = if i + chunk >= n {
            Seq::empty()
        } else {
            msb_bits(6, 4) + byte_bits(data@, i + chunk)
        };
        proof {
            assert(chunk == byte_chunk(n as int, i as int));
            assert(byte_bits(data@, i as int) =~= msb_bits(chunk as int, 9) + bytes8(
                data@.subrange(i as int, i + chunk),
            ) + tail);
        }
        append(bits, chunk as u32, 9);
        let mut j: usize = 0;
        while j < chunk
            invariant
                n == data@.len(),
                i + chunk <= n,
                j <= chunk,
                bits@ + bytes8(data@.subrange(i + j, i + chunk)) + tail == target,
            decreases chunk - j,
        {
            proof {
                let s = data@.subrange(i + j, i + chunk);
                assert(s[0] == data@[i + j]);
                assert(s.drop_first() =~= data@.subrange(i + j + 1, i + chunk));
            }
            append(bits, data[i + j] as u32, 8);
            proof {
                assert(bits@ + bytes8(data@.subrange(i + j + 1, i + chunk)) + tail =~= target);
            }
            j = j + 1;
        }
        proof {
            assert(bytes8(data@.subrange(i + chunk, i + chunk)) =~= Seq::<bool>::empty());
            assert(bits@ + tail =~= target);
        }
        i = i + chunk;
        if i >= n {
            proof {
                assert(bits@ =~= target);
            }
            break;
        }
        append(bits, BYTE_CONTINUE, 4);
        proof {
            assert(bits@ + byte_bits(data@, i as int) =~= target);
        }
    }
}

/// Encode `(mode, bytes)` segments into the Grid Matrix data bitstream, with the
/// opening mode selector and the end-of-data terminator.
pub fn encode_segments(segs: &[(GmMode, Vec<u8>)]) -> (r: Result<Vec<bool>, Error>)
    ensures
        segs@.len() == 0 ==> r == Err::<Vec<bool>, Error>(Error::InvalidParameter),
        segs@.len() > 0 ==> match enc_fail(seg_view(segs@), 0) {
            Some(e) => r == Err::<Vec<bool>, Error>(e),
            None => r is Ok && r->Ok_0@ == stream_spec(seg_view(segs@)),
        },
{
    let ghost sv = seg_view(segs@);
    let n = segs.len();
    if n == 0 {
        return Err(Error::InvalidParameter);
    }
    let mut bits: Vec<bool> = Vec::new();
    let mut current: u8 = 0;
    let mut k: usize = 0;
    while k < n
        invariant
            n == segs@.len(),
            sv == seg_view(segs@),
            k <= n,
            current == prev_index(sv, k as int),
            bits@ == enc_prefix(sv, k as int),
            enc_fail(sv, 0) == enc_fail(sv, k as int),
            k > 0 ==> payload_err(sv[k - 1].0, sv[k - 1].1) is None,
        decreases n - k,
    {
        let mode = segs[k].0;
        let data = &segs[k].1;
        let to = mode.index();
        let sw = switch_code(current, to);
        if sw.is_none() {
            return Err(Error::Unsupported);
        }
        let (code, len) = sw.unwrap();
        proof {
            assert(sv[k as int] == (mode, data@));
            assert(len <= 10) by {
                assert(switch_spec(current, to) == Some((code, len)));
            }
        }
        append(&mut bits, code, len);
        current = to;
        match mode {
            GmMode::Numeral => {
                let res = encode_numeral(&mut bits, data.as_slice());
                if res.is_err() {
                    return Err(Error::InvalidData);
                }
            },
            GmMode::Upper => {
                let res = encode_alpha(&mut bits, data.as_slice(), 65);
                if res.is_err() {
                    return Err(Error::InvalidData);
                }
            },
            GmMode::Lower => {
                let res = encode_alpha(&mut bits, data.as_slice(), 97);
                if res.is_err() {
                    return Err(Error::InvalidData);
                }
            },
            GmMode::Byte => encode_byte(&mut bits, data.as_slice()),
            _ => {
                return Err(Error::Unsupported);
            },
        }
        proof {
            assert(bits@ =~= enc_prefix(sv, k + 1));
        }
        k = k + 1;
    }
    let ec = eod_code(current);
    proof {
        assert(payload_err(sv[n - 1].0, sv[n - 1].1) is None);
        assert(ec is Some);
    }
    let (code, len) = ec.unwrap();
    append(&mut bits, code, len);
    proof {
        assert(enc_fail(sv, n as int) is None);
    }
    Ok(bits)
}


// ---------------------------------------------------------------------------
// Decoding, as functions of the bitstream
// ---------------------------------------------------------------------------

/// The character of glyph `v` (0 to 26) in the alphabet starting at `base`.
pub open spec fn alpha_char(v: int, base: u8) -> u8 {
    if v == 26 {
        32
    } else {
        (base + v) as u8
    }
}

/// An alphabetic payload read from `pos`: the characters (after `acc`), what
/// follows them, and the position after that control.
pub open spec fn dec_alpha(bits: Seq<bool>, pos: int, base: u8, acc: Seq<u8>) -> Result<
    (Seq<u8>, Next, int),
    Error,
>
    decreases bits.len() - pos,
{
    match rd(bits, pos, 5) {
        None => Err(Error::Undecodable),
        Some(v) => if v <= 26 {
            dec_alpha(bits, pos + 5, base, acc.push(alpha_char(v, base)))
        } else if v == 27 {
            Ok((acc, Next::Eod, pos + 5))
        } else if v == 29 {
            Ok((acc, Next::Mode(GmMode::Numeral), pos + 5))
        } else if v == 30 {
            Ok(
                (
                    acc,
                    Next::Mode(
                        if base == 65 {
                            GmMode::Lower
                        } else {
                            GmMode::Upper
                        },
                    ),
                    pos + 5,
                ),
            )
        } else if v == 31 {
            match rd(bits, pos + 5, 2) {
                None => Err(Error::Undecodable),
                Some(w) => if w == 2 {
                    Ok((acc, Next::Mode(GmMode::Byte), pos + 7))
                } else {
                    Err(Error::Unsupported)
                },
            }
        } else {
            Err(Error::Unsupported)
        },
    }
}

/// Numeral groups read from `pos` (after `acc`) up to the first control, with
/// that control and the position after it.
pub open spec fn dec_groups(bits: Seq<bool>, pos: int, acc: Seq<u32>) -> Result<
    (Seq<u32>, int, int),
    Error,
>
    decreases bits.len() - pos,
{
    match rd(bits, pos, 10) {
        None => Err(Error::Undecodable),
        Some(v) => if v <= 999 {
            dec_groups(bits, pos + 10, acc.push(v as u32))
        } else {
            Ok((acc, v, pos + 10))
        },
    }
}

/// `10^e` for `e` below 3.
pub open spec fn p10(e: int) -> int {
    if e <= 0 {
        1
    } else if e == 1 {
        10
    } else {
        100
    }
}

/// The last `len` decimal digits of group value `g`.
pub open spec fn group_digits(g: int, len: int) -> Seq<u8> {
    Seq::new(len as nat, |j: int| (48 + (g / p10(len - 1 - j)) % 10) as u8)
}

/// Numeral groups as digits: three per group, `last` for the final one.
pub open spec fn expand(gs: Seq<u32>, last: int) -> Seq<u8>
    decreases gs.len(),
{
    if gs.len() == 0 {
        Seq::empty()
    } else if gs.len() == 1 {
        group_digits(gs[0] as int, last)
    } else {
        group_digits(gs[0] as int, 3) + expand(gs.drop_first(), last)
    }
}

/// What a numeral control announces.
pub open spec fn num_next(ctrl: int) -> Result<Next, Error> {
    if ctrl == 1018 {
        Ok(Next::Eod)
    } else if ctrl == 1020 {
        Ok(Next::Mode(GmMode::Lower))
    } else if ctrl == 1021 {
        Ok(Next::Mode(GmMode::Upper))
    } else if ctrl == 1023 {
        Ok(Next::Mode(GmMode::Byte))
    } else if ctrl == 1019 || ctrl == 1022 {
        Err(Error::Unsupported)
    } else {
        Err(Error::Undecodable)
    }
}

/// A numeral payload read from `pos`.
pub open spec fn dec_numeral(bits: Seq<bool>, pos: int) -> Result<(Seq<u8>, Next, int), Error> {
    match rd(bits, pos, 2) {
        None => Err(Error::Undecodable),
        Some(p) => match dec_groups(bits, pos + 2, Seq::empty()) {
            Err(e) => Err(e),
            Ok((gs, ctrl, q)) => match num_next(ctrl) {
                Err(e) => Err(e),
                Ok(nx) => Ok((expand(gs, 3 - p), nx, q)),
            },
        },
    }
}

/// `c` bytes read from `pos`, 8 bits each.
pub open spec fn read_bytes(bits: Seq<bool>, pos: int, c: nat) -> Seq<u8> {
    Seq::new(c, |j: int| bval(bits.subrange(pos + 8 * j, pos + 8 * j + 8)) as u8)
}

/// What a byte-mode control (other than the continuation) announces.
pub open spec fn byte_next(ctrl: int) -> Result<Next, Error> {
    if ctrl == 0 {
        Ok(Next::Eod)
    } else if ctrl == 2 {
        Ok(Next::Mode(GmMode::Numeral))
    } else if ctrl == 3 {
        Ok(Next::Mode(GmMode::Lower))
    } else if ctrl == 4 {
        Ok(Next::Mode(GmMode::Upper))
    } else if ctrl == 1 || ctrl == 5 {
        Err(Error::Unsupported)
    } else {
        Err(Error::Undecodable)
    }
}

/// A byte payload read from `pos`: counted runs, joined by the continuation control.
pub open spec fn dec_byte(bits: Seq<bool>, pos: int, acc: Seq<u8>) -> Result<
    (Seq<u8>, Next, int),
    Error,
>
    decreases bits.len() - pos,
{
    match rd(bits, pos, 9) {
        None => Err(Error::Undecodable),
        Some(c) => {
            let q = pos + 9 + 8 * c;
            if q > bits.len() {
                Err(Error::Undecodable)
            } else {
                let acc2 = acc + read_bytes(bits, pos + 9, c as nat);
                match rd(bits, q, 4) {
                    None => Err(Error::Undecodable),
                    Some(ctrl) => if ctrl == 6 {
                        dec_byte(bits, q + 4, acc2)
                    } else {
                        match byte_next(ctrl) {
                            Err(e) => Err(e),
                            Ok(nx) => Ok((acc2, nx, q + 4)),
                        }
                    },
                }
            }
        },
    }
}

/// One segment's payload and control, read from `pos` in mode `m`.
pub open spec fn dec_step(bits: Seq<bool>, pos: int, m: GmMode) -> Result<
    (Seq<u8>, Next, int),
    Error,
> {
    match m {
        GmMode::Numeral => dec_numeral(bits, pos),
        GmMode::Upper => dec_alpha(bits, pos, 65, Seq::empty()),
        GmMode::Lower => dec_alpha(bits, pos, 97, Seq::empty()),
        GmMode::Byte => dec_byte(bits, pos, Seq::empty()),
        _ => Err(Error::Unsupported),
    }
}

proof fn lemma_dec_alpha_bounds(bits: Seq<bool>, pos: int, base: u8, acc: Seq<u8>)
    ensures
        dec_alpha(bits, pos, base, acc) matches Ok((_, _, q)) ==> pos + 5 <= q <= bits.len(),
    decreases bits.len() - pos,
{
    if let Some(v) = rd(bits, pos, 5) {
        if v <= 26 {
            lemma_dec_alpha_bounds(bits, pos + 5, base, acc.push(alpha_char(v, base)));
        }
    }
}

proof fn lemma_dec_groups_bounds(bits: Seq<bool>, pos: int, acc: Seq<u32>)
    ensures
        dec_groups(bits, pos, acc) matches Ok((_, _, q)) ==> pos + 10 <= q <= bits.len(),
    decreases bits.len() - pos,
{
    if let Some(v) = rd(bits, pos, 10) {
        if v <= 999 {
            lemma_dec_groups_bounds(bits, pos + 10, acc.push(v as u32));
        }
    }
}

proof fn lemma_dec_byte_bounds(bits: Seq<bool>, pos: int, acc: Seq<u8>)
    ensures
        dec_byte(bits, pos, acc) matches Ok((_, _, q)) ==> pos + 13 <= q <= bits.len(),
    decreases bits.len() - pos,
{
    if let Some(c) = rd(bits, pos, 9) {
        let q = pos + 9 + 8 * c;
        if q <= bits.len() {
            let acc2 = acc + read_bytes(bits, pos + 9, c as nat);
            if let Some(ctrl) = rd(bits, q, 4) {
                if ctrl == 6 {
                    lemma_dec_byte_bounds(bits, q + 4, acc2);
                }
            }
        }
    }
}

/// Each decoding step moves forward and stays inside the bitstream.
pub proof fn lemma_dec_step_bounds(bits: Seq<bool>, pos: int, m: GmMode)
    ensures
        dec_step(bits, pos, m) matches Ok((_, _, q)) ==> pos < q <= bits.len(),
{
    lemma_dec_alpha_bounds(bits, pos, 65, Seq::empty());
    lemma_dec_alpha_bounds(bits, pos, 97, Seq::empty());
    lemma_dec_groups_bounds(bits, pos + 2, Seq::empty());
    lemma_dec_byte_bounds(bits, pos, Seq::empty());
}

/// The segments read from `pos` in mode `m`, after `acc`.
pub open spec fn dec_segs(
    bits: Seq<bool>,
    pos: int,
    m: GmMode,
    acc: Seq<(GmMode, Seq<u8>)>,
) -> Result<Seq<(GmMode, Seq<u8>)>, Error>
    decreases bits.len() - pos,
{
    match dec_step(bits, pos, m) {
        Err(e) => Err(e),
        Ok((d, nx, q)) => match nx {
            Next::Eod => Ok(acc.push((m, d))),
            Next::Mode(m2) => {
                proof {
                    lemma_dec_step_bounds(bits, pos, m);
                }
                dec_segs(bits, q, m2, acc.push((m, d)))
            },
        },
    }
}

/// The mode an opening selector chooses.
pub open spec fn start_mode_spec(sel: int) -> Result<GmMode, Error> {
    if sel == 2 {
        Ok(GmMode::Numeral)
    } else if sel == 3 {
        Ok(GmMode::Lower)
    } else if sel == 4 {
        Ok(GmMode::Upper)
    } else if sel == 7 {
        Ok(GmMode::Byte)
    } else if sel == 1 || sel == 5 {
        Err(Error::Unsupported)
    } else {
        Err(Error::Undecodable)
    }
}

/// The segments a Grid Matrix data bitstream holds, up to its end-of-data control.
pub open spec fn decode_spec(bits: Seq<bool>) -> Result<Seq<(GmMode, Seq<u8>)>, Error> {
    match rd(bits, 0, 4) {
        None => Err(Error::Undecodable),
        Some(sel) => match start_mode_spec(sel) {
            Err(e) => Err(e),
            Ok(m) => dec_segs(bits, 4, m, Seq::empty()),
        },
    }
}


proof fn lemma_alpha_errors(bits: Seq<bool>, pos: int, base: u8, acc: Seq<u8>)
    ensures
        dec_alpha(bits, pos, base, acc) matches Err(e) ==> e == Error::Undecodable || e
            == Error::Unsupported,
    decreases bits.len() - pos,
{
    if let Some(v) = rd(bits, pos, 5) {
        if v <= 26 {
            lemma_alpha_errors(bits, pos + 5, base, acc.push(alpha_char(v, base)));
        }
    }
}

proof fn lemma_groups_errors(bits: Seq<bool>, pos: int, acc: Seq<u32>)
    ensures
        dec_groups(bits, pos, acc) matches Err(e) ==> e == Error::Undecodable,
    decreases bits.len() - pos,
{
    if let Some(v) = rd(bits, pos, 10) {
        if v <= 999 {
            lemma_groups_errors(bits, pos + 10, acc.push(v as u32));
        }
    }
}

proof fn lemma_byte_errors(bits: Seq<bool>, pos: int, acc: Seq<u8>)
    ensures
        dec_byte(bits, pos, acc) matches Err(e) ==> e == Error::Undecodable || e
            == Error::Unsupported,
    decreases bits.len() - pos,
{
    if let Some(c) = rd(bits, pos, 9) {
        let q = pos + 9 + 8 * c;
        if q <= bits.len() {
            let acc2 = acc + read_bytes(bits, pos + 9, c as nat);
            if let Some(ctrl) = rd(bits, q, 4) {
                if ctrl == 6 {
                    lemma_byte_errors(bits, q + 4, acc2);
                }
            }
        }
    }
}

proof fn lemma_segs_errors(
    bits: Seq<bool>,
    pos: int,
    m: GmMode,
    acc: Seq<(GmMode, Seq<u8>)>,
)
    ensures
        dec_segs(bits, pos, m, acc) matches Err(e) ==> e == Error::Undecodable || e
            == Error::Unsupported,
    decreases bits.len() - pos,
{
    lemma_alpha_errors(bits, pos, 65, Seq::empty());
    lemma_alpha_errors(bits, pos, 97, Seq::empty());
    lemma_groups_errors(bits, pos + 2, Seq::empty());
    lemma_byte_errors(bits, pos, Seq::empty());
    if let Ok((d, nx, q)) = dec_step(bits, pos, m) {
        if let Next::Mode(m2) = nx {
            lemma_dec_step_bounds(bits, pos, m);
            lemma_segs_errors(bits, q, m2, acc.push((m, d)));
        }
    }
}

/// Decoding fails only on a malformed or truncated bitstream, or on a mode this
/// library does not read.
pub proof fn lemma_decode_errors(bits: Seq<bool>)
    ensures
        decode_spec(bits) matches Err(e) ==> e == Error::Undecodable || e == Error::Unsupported,
{
    if let Some(sel) = rd(bits, 0, 4) {
        if let Ok(m) = start_mode_spec(sel) {
            lemma_segs_errors(bits, 4, m, Seq::empty());
        }
    }
}

// ---------------------------------------------------------------------------
// Decoding
// ---------------------------------------------------------------------------

fn decode_alpha(bits: &[bool], pos: &mut usize, base: u8) -> (r: Result<(Vec<u8>, Next), Error>)
    requires
        base == 65 || base == 97,
    ensures
        match dec_alpha(bits@, *old(pos) as int, base, Seq::empty()) {
            Err(e) => r == Err::<(Vec<u8>, Next), Error>(e),
            Ok((d, nx, q)) => r is Ok && r->Ok_0.0@ == d && r->Ok_0.1 == nx && *final(pos) == q,
        },
{
    let ghost pos0 = *pos as int;
    let mut p: usize = *pos;
    let mut data: Vec<u8> = Vec::new();
    loop
        invariant
            base == 65 || base == 97,
            pos0 == *old(pos) as int,
            dec_alpha(bits@, pos0, base, Seq::empty()) == dec_alpha(bits@, p as int, base, data@),
        decreases bits@.len() - p,
    {
        let ghost p_before = p as int;
        let v = match read(bits, &mut p, 5) {
            Ok(v) => v,
            Err(e) => {
                return Err(e);
            },
        };
        proof {
            lemma_pw2_small();
        }
        if v <= 26 {
            let c: u8 = if v == 26 {
                32
            } else {
                base + v as u8
            };
            proof {
                assert(c == alpha_char(v as int, base));
            }
            data.push(c);
        } else {
            let nx = if v == 27 {
                Next::Eod
            } else if v == 29 {
                Next::Mode(GmMode::Numeral)
            } else if v == 30 {
                Next::Mode(
                    if base == 65 {
                        GmMode::Lower
                    } else {
                        GmMode::Upper
                    },
                )
            } else if v == 31 {
                let w = match read(bits, &mut p, 2) {
                    Ok(w) => w,
                    Err(e) => {
                        return Err(e);
                    },
                };
                if w == 2 {
                    Next::Mode(GmMode::Byte)
                } else {
                    return Err(Error::Unsupported);
                }
            } else {
                return Err(Error::Unsupported);
            };
            *pos = p;
            return Ok((data, nx));
        }
    }
}

/// Small powers of two.
proof fn lemma_pw2_small()
    ensures
        pw2(2) == 4,
        pw2(4) == 16,
        pw2(5) == 32,
        pw2(7) == 128,
        pw2(8) == 256,
        pw2(9) == 512,
        pw2(10) == 1024,
{
    reveal_with_fuel(pw2, 11);
}

fn num_control(ctrl: u32) -> (r: Result<Next, Error>)
    ensures
        r == num_next(ctrl as int),
{
    if ctrl == 1018 {
        Ok(Next::Eod)
    } else if ctrl == 1020 {
        Ok(Next::Mode(GmMode::Lower))
    } else if ctrl == 1021 {
        Ok(Next::Mode(GmMode::Upper))
    } else if ctrl == 1023 {
        Ok(Next::Mode(GmMode::Byte))
    } else if ctrl == 1019 || ctrl == 1022 {
        Err(Error::Unsupported)
    } else {
        Err(Error::Undecodable)
    }
}

fn push_group_digits(data: &mut Vec<u8>, g: u32, len: usize)
    requires
        len <= 3,
        g < 1024,
    ensures
        final(data)@ == old(data)@ + group_digits(g as int, len as int),
{
    let ghost start = old(data)@;
    if len == 3 {
        data.push((48 + (g / 100) % 10) as u8);
    }
    if len >= 2 {
        data.push((48 + (g / 10) % 10) as u8);
    }
    if len >= 1 {
        data.push((48 + g % 10) as u8);
    }
    proof {
        assert(data@ =~= start + group_digits(g as int, len as int));
    }
}

fn decode_numeral(bits: &[bool], pos: &mut usize) -> (r: Result<(Vec<u8>, Next), Error>)
    ensures
        match dec_numeral(bits@, *old(pos) as int) {
            Err(e) => r == Err::<(Vec<u8>, Next), Error>(e),
            Ok((d, nx, q)) => r is Ok && r->Ok_0.0@ == d && r->Ok_0.1 == nx && *final(pos) == q,
        },
{
    let mut p: usize = *pos;
    let ind = match read(bits, &mut p, 2) {
        Ok(v) => v,
        Err(e) => {
            return Err(e);
        },
    };
    proof {
        lemma_pw2_small();
    }
    let ghost q0 = p as int;
    proof {
        assert(dec_numeral(bits@, *old(pos) as int) == match dec_groups(bits@, q0, Seq::empty()) {
            Err(e) => Err(e),
            Ok((gs, ctrl, q)) => match num_next(ctrl) {
                Err(e) => Err(e),
                Ok(nx) => Ok((expand(gs, 3 - ind as int), nx, q)),
            },
        });
    }
    let mut groups: Vec<u32> = Vec::new();
    let control: u32;
    loop
        invariant_except_break
            dec_groups(bits@, q0, Seq::empty()) == dec_groups(bits@, p as int, groups@),
            dec_numeral(bits@, *old(pos) as int) == match dec_groups(bits@, q0, Seq::empty()) {
                Err(e) => Err(e),
                Ok((gs, ctrl, q)) => match num_next(ctrl) {
                    Err(e) => Err(e),
                    Ok(nx) => Ok((expand(gs, 3 - ind as int), nx, q)),
                },
            },
            forall|j: int| 0 <= j < groups@.len() ==> #[trigger] groups@[j] < 1000,
        ensures
            dec_groups(bits@, q0, Seq::empty()) == Ok::<(Seq<u32>, int, int), Error>(
                (groups@, control as int, p as int),
            ),
            forall|j: int| 0 <= j < groups@.len() ==> #[trigger] groups@[j] < 1000,
        decreases bits@.len() - p,
    {
        let ghost pb = p as int;
        let v = match read(bits, &mut p, 10) {
            Ok(v) => v,
            Err(e) => {
                return Err(e);
            },
        };
        proof {
            lemma_pw2_small();
            assert(rd(bits@, pb, 10) == Some(v as int));
        }
        if v <= 999 {
            proof {
                assert(dec_groups(bits@, pb, groups@) == dec_groups(bits@, pb + 10, groups@.push(v)));
            }
            groups.push(v);
        } else {
            control = v;
            break;
        }
    }
    let nx = match num_control(control) {
        Ok(nx) => nx,
        Err(e) => {
            return Err(e);
        },
    };
    let last_len: usize = 3 - ind as usize;
    let ghost gs = groups@;
    let mut data: Vec<u8> = Vec::new();
    let count = groups.len();
    let mut k: usize = 0;
    proof {
        assert(gs.skip(0) =~= gs);
    }
    while k < count
        invariant
            count == gs.len(),
            gs == groups@,
            k <= count,
            last_len <= 3,
            forall|j: int| 0 <= j < gs.len() ==> #[trigger] gs[j] < 1000,
            data@ + expand(gs.skip(k as int), last_len as int) == expand(gs, last_len as int),
        decreases count - k,
    {
        let len: usize = if k + 1 == count {
            last_len
        } else {
            3
        };
        proof {
            let rest = gs.skip(k as int);
            assert(rest[0] == gs[k as int]);
            assert(rest.drop_first() =~= gs.skip(k + 1));
            if k + 1 == count {
                assert(gs.skip(k + 1) =~= Seq::<u32>::empty());
            }
        }
        push_group_digits(&mut data, groups[k], len);
        proof {
            assert(data@ + expand(gs.skip(k + 1), last_len as int) =~= expand(
                gs,
                last_len as int,
            ));
        }
        k = k + 1;
    }
    proof {
        assert(gs.skip(count as int) =~= Seq::<u32>::empty());
        assert(data@ =~= expand(gs, last_len as int));
    }
    *pos = p;
    Ok((data, nx))
}

fn byte_control(ctrl: u32) -> (r: Result<Next, Error>)
    ensures
        r == byte_next(ctrl as int),
{
    if ctrl == 0 {
        Ok(Next::Eod)
    } else if ctrl == 2 {
        Ok(Next::Mode(GmMode::Numeral))
    } else if ctrl == 3 {
        Ok(Next::Mode(GmMode::Lower))
    } else if ctrl == 4 {
        Ok(Next::Mode(GmMode::Upper))
    } else if ctrl == 1 || ctrl == 5 {
        Err(Error::Unsupported)
    } else {
        Err(Error::Undecodable)
    }
}

fn decode_byte(bits: &[bool], pos: &mut usize) -> (r: Result<(Vec<u8>, Next), Error>)
    ensures
        match dec_byte(bits@, *old(pos) as int, Seq::empty()) {
            Err(e) => r == Err::<(Vec<u8>, Next), Error>(e),
            Ok((d, nx, q)) => r is Ok && r->Ok_0.0@ == d && r->Ok_0.1 == nx && *final(pos) == q,
        },
{
    let ghost pos0 = *pos as int;
    let mut p: usize = *pos;
    let mut data: Vec<u8> = Vec::new();
    loop
        invariant
            pos0 == *old(pos) as int,
            dec_byte(bits@, pos0, Seq::empty()) == dec_byte(bits@, p as int, data@),
        decreases bits@.len() - p,
    {
        let ghost p_run = p as int;
        let ghost acc = data@;
        let count = match read(bits, &mut p, 9) {
            Ok(v) => v,
            Err(e) => {
                return Err(e);
            },
        };
        proof {
            lemma_pw2_small();
        }
        let mut j: u32 = 0;
        while j < count
            invariant
                pos0 == *old(pos) as int,
                dec_byte(bits@, pos0, Seq::empty()) == dec_byte(bits@, p_run, acc),
                rd(bits@, p_run, 9) == Some(count as int),
                j <= count,
                count < 512,
                p == p_run + 9 + 8 * j,
                data@ == acc + read_bytes(bits@, p_run + 9, j as nat),
            decreases count - j,
        {
            let ghost pj = p as int;
            let b = match read(bits, &mut p, 8) {
                Ok(b) => b,
                Err(e) => {
                    proof {
                        assert(p_run + 9 + 8 * count > bits@.len());
                    }
                    return Err(e);
                },
            };
            proof {
                lemma_pw2_small();
                assert(bits@.subrange(pj, pj + 8) == bits@.subrange(
                    p_run + 9 + 8 * j,
                    p_run + 9 + 8 * j + 8,
                ));
            }
            data.push(b as u8);
            proof {
                assert(data@ =~= acc + read_bytes(bits@, p_run + 9, (j + 1) as nat));
            }
            j = j + 1;
        }
        let ctrl = match read(bits, &mut p, 4) {
            Ok(v) => v,
            Err(e) => {
                return Err(e);
            },
        };
        if ctrl != BYTE_CONTINUE {
            let nx = match byte_control(ctrl) {
                Ok(nx) => nx,
                Err(e) => {
                    return Err(e);
                },
            };
            *pos = p;
            return Ok((data, nx));
        }
    }
}

/// Decode the Grid Matrix data bitstream into `(mode, bytes)` segments, stopping at
/// the end-of-data control.
pub fn decode_segments(bits: &[bool]) -> (r: Result<Vec<(GmMode, Vec<u8>)>, Error>)
    ensures
        match decode_spec(bits@) {
            Ok(s) => r is Ok && seg_view(r->Ok_0@) == s,
            Err(e) => r == Err::<Vec<(GmMode, Vec<u8>)>, Error>(e),
        },
{
    let mut p: usize = 0;
    let sel = match read(bits, &mut p, 4) {
        Ok(v) => v,
        Err(e) => {
            return Err(e);
        },
    };
    proof {
        lemma_pw2_small();
        assert(rd(bits@, 0, 4) == Some(sel as int));
    }
    let mut mode = if sel == 2 {
        GmMode::Numeral
    } else if sel == 3 {
        GmMode::Lower
    } else if sel == 4 {
        GmMode::Upper
    } else if sel == 7 {
        GmMode::Byte
    } else if sel == 1 || sel == 5 {
        return Err(Error::Unsupported);
    } else {
        return Err(Error::Undecodable);
    };
    let mut segs: Vec<(GmMode, Vec<u8>)> = Vec::new();
    proof {
        assert(seg_view(segs@) =~= Seq::<(GmMode, Seq<u8>)>::empty());
    }
    loop
        invariant
            decode_spec(bits@) == dec_segs(bits@, p as int, mode, seg_view(segs@)),
        decreases bits@.len() - p,
    {
        let ghost p_before = p as int;
        let step = match mode {
            GmMode::Numeral => decode_numeral(bits, &mut p),
            GmMode::Upper => decode_alpha(bits, &mut p, 65),
            GmMode::Lower => decode_alpha(bits, &mut p, 97),
            GmMode::Byte => decode_byte(bits, &mut p),
            _ => Err(Error::Unsupported),
        };
        let (data, next) = match step {
            Ok(x) => x,
            Err(e) => {
                return Err(e);
            },
        };
        proof {
            lemma_dec_step_bounds(bits@, p_before, mode);
        }
        let ghost before = seg_view(segs@);
        segs.push((mode, data));
        proof {
            assert(seg_view(segs@) =~= before.push((mode, data@)));
        }
        match next {
            Next::Eod => {
                return Ok(segs);
            },
            Next::Mode(m) => {
                mode = m;
            },
        }
    }
}


// ---------------------------------------------------------------------------
// Decoding what was encoded
// ---------------------------------------------------------------------------

/// The control written after a segment in mode `m` that announces `nx`.
pub open spec fn ctrl_bits(m: GmMode, nx: Next) -> Seq<bool> {
    match nx {
        Next::Eod => code_bits(eod_spec(mode_index(m))),
        Next::Mode(m2) => code_bits(switch_spec(mode_index(m), mode_index(m2))),
    }
}

/// A mode the encoder writes.
pub open spec fn written_mode(m: GmMode) -> bool {
    m is Numeral || m is Upper || m is Lower || m is Byte
}

/// What may follow a segment in mode `m`: the end, or a different written mode.
pub open spec fn next_ok(m: GmMode, nx: Next) -> bool {
    match nx {
        Next::Eod => true,
        Next::Mode(m2) => written_mode(m2) && m2 != m,
    }
}

/// The alphabetic mode whose alphabet starts at `base`.
pub open spec fn alpha_mode(base: u8) -> GmMode {
    if base == 65 {
        GmMode::Upper
    } else {
        GmMode::Lower
    }
}

proof fn lemma_assoc(x: Seq<bool>, y: Seq<bool>, z: Seq<bool>)
    ensures
        (x + y) + z == x + (y + z),
{
    assert((x + y) + z =~= x + (y + z));
}

/// The 7-bit switch to byte mode reads as the escape glyph 31 and then 2.
proof fn lemma_byte_escape()
    ensures
        msb_bits(126, 7) == msb_bits(31, 5) + msb_bits(2, 2),
{
    reveal_with_fuel(pw2, 8);
    assert(pw2(0) == 1 && pw2(1) == 2 && pw2(2) == 4 && pw2(3) == 8 && pw2(4) == 16 && pw2(5)
        == 32 && pw2(6) == 64);
    let a = msb_bits(126, 7);
    let b = msb_bits(31, 5) + msb_bits(2, 2);
    assert forall|i: int| 0 <= i < 7 implies #[trigger] a[i] == b[i] by {
        if i < 5 {
            assert(b[i] == msb_bits(31, 5)[i]);
        } else {
            assert(b[i] == msb_bits(2, 2)[i - 5]);
        }
        if i == 0 {
            assert(a[i] == ((126int / 64) % 2 == 1));
            assert(b[i] == ((31int / 16) % 2 == 1));
        } else if i == 1 {
            assert(a[i] == ((126int / 32) % 2 == 1));
            assert(b[i] == ((31int / 8) % 2 == 1));
        } else if i == 2 {
            assert(a[i] == ((126int / 16) % 2 == 1));
            assert(b[i] == ((31int / 4) % 2 == 1));
        } else if i == 3 {
            assert(a[i] == ((126int / 8) % 2 == 1));
            assert(b[i] == ((31int / 2) % 2 == 1));
        } else if i == 4 {
            assert(a[i] == ((126int / 4) % 2 == 1));
            assert(b[i] == ((31int / 1) % 2 == 1));
        } else if i == 5 {
            assert(a[i] == ((126int / 2) % 2 == 1));
            assert(b[i] == ((2int / 2) % 2 == 1));
        } else {
            assert(a[i] == ((126int / 1) % 2 == 1));
            assert(b[i] == ((2int / 1) % 2 == 1));
        }
    }
    assert(a =~= b);
}

proof fn lemma_alpha_law(
    bits: Seq<bool>,
    pos: int,
    d: Seq<u8>,
    base: u8,
    acc: Seq<u8>,
    nx: Next,
)
    requires
        base == 65 || base == 97,
        alpha_ok(d, base),
        next_ok(alpha_mode(base), nx),
        at(bits, pos, alpha_bits(d, base) + ctrl_bits(alpha_mode(base), nx)),
    ensures
        dec_alpha(bits, pos, base, acc) == Ok::<(Seq<u8>, Next, int), Error>(
            (
                acc + d,
                nx,
                pos + alpha_bits(d, base).len() + ctrl_bits(alpha_mode(base), nx).len(),
            ),
        ),
    decreases d.len(),
{
    lemma_pw2_small();
    let ctrl = ctrl_bits(alpha_mode(base), nx);
    if d.len() == 0 {
        assert(alpha_bits(d, base) + ctrl =~= ctrl);
        assert(acc + d =~= acc);
        match nx {
            Next::Eod => {
                lemma_rd_at(bits, pos, 27, 5);
            },
            Next::Mode(m2) => {
                if m2 is Byte {
                    lemma_byte_escape();
                    lemma_at_concat(bits, pos, msb_bits(31, 5), msb_bits(2, 2));
                    lemma_rd_at(bits, pos, 31, 5);
                    lemma_rd_at(bits, pos + 5, 2, 2);
                } else if m2 is Numeral {
                    lemma_rd_at(bits, pos, 29, 5);
                } else {
                    lemma_rd_at(bits, pos, 30, 5);
                }
            },
        }
    } else {
        let g = alpha_glyph(d[0], base).unwrap();
        let rest = d.drop_first();
        assert(alpha_glyph(d[0], base) is Some);
        assert(alpha_ok(rest, base)) by {
            assert forall|i: int| 0 <= i < rest.len() implies (#[trigger] alpha_glyph(
                rest[i],
                base,
            )) is Some by {
                assert(rest[i] == d[i + 1]);
                assert(alpha_glyph(d[i + 1], base) is Some);
            }
        }
        lemma_assoc(msb_bits(g, 5), alpha_bits(rest, base), ctrl);
        lemma_at_concat(bits, pos, msb_bits(g, 5), alpha_bits(rest, base) + ctrl);
        lemma_rd_at(bits, pos, g, 5);
        assert(alpha_char(g, base) == d[0]);
        lemma_alpha_law(bits, pos + 5, rest, base, acc.push(d[0]), nx);
        assert(acc.push(d[0]) + rest =~= acc + d);
    }
}

/// The digit groups of `d` from `i` on, as numbers.
pub open spec fn num_groups_from(d: Seq<u8>, i: int) -> Seq<u32>
    decreases d.len() - i,
{
    if i < 0 || i >= d.len() {
        Seq::empty()
    } else {
        seq![num_group(d, i) as u32] + num_groups_from(d, i + num_take(d.len() as int, i))
    }
}

/// Every byte of `d` is a digit.
pub open spec fn all_digits(d: Seq<u8>) -> bool {
    forall|i: int| 0 <= i < d.len() ==> is_digit(#[trigger] d[i])
}

proof fn lemma_group_range(d: Seq<u8>, i: int)
    requires
        all_digits(d),
        0 <= i < d.len(),
    ensures
        0 <= num_group(d, i) < 1000,
{
    let t = num_take(d.len() as int, i);
    assert(is_digit(d[i]));
    if t >= 2 {
        assert(is_digit(d[i + 1]));
    }
    if t >= 3 {
        assert(is_digit(d[i + 2]));
    }
}

proof fn lemma_groups_law(bits: Seq<bool>, pos: int, d: Seq<u8>, i: int, acc: Seq<u32>, ctrl: int)
    requires
        all_digits(d),
        0 <= i <= d.len(),
        1000 <= ctrl < 1024,
        at(bits, pos, num_groups_bits(d, i) + msb_bits(ctrl, 10)),
    ensures
        dec_groups(bits, pos, acc) == Ok::<(Seq<u32>, int, int), Error>(
            (acc + num_groups_from(d, i), ctrl, pos + num_groups_bits(d, i).len() + 10),
        ),
    decreases d.len() - i,
{
    lemma_pw2_small();
    if i >= d.len() {
        assert(num_groups_bits(d, i) + msb_bits(ctrl, 10) =~= msb_bits(ctrl, 10));
        lemma_rd_at(bits, pos, ctrl, 10);
        assert(acc + num_groups_from(d, i) =~= acc);
    } else {
        let g = num_group(d, i);
        let t = num_take(d.len() as int, i);
        lemma_group_range(d, i);
        lemma_assoc(msb_bits(g, 10), num_groups_bits(d, i + t), msb_bits(ctrl, 10));
        lemma_at_concat(bits, pos, msb_bits(g, 10), num_groups_bits(d, i + t) + msb_bits(ctrl, 10));
        lemma_rd_at(bits, pos, g, 10);
        lemma_groups_law(bits, pos + 10, d, i + t, acc.push(g as u32), ctrl);
        assert(acc.push(g as u32) + num_groups_from(d, i + t) =~= acc + num_groups_from(d, i));
    }
}

proof fn lemma_group_digits(d: Seq<u8>, i: int)
    requires
        all_digits(d),
        0 <= i < d.len(),
    ensures
        group_digits(num_group(d, i), num_take(d.len() as int, i)) == d.subrange(
            i,
            i + num_take(d.len() as int, i),
        ),
{
    let t = num_take(d.len() as int, i);
    let g = num_group(d, i);
    assert(is_digit(d[i]));
    if t >= 2 {
        assert(is_digit(d[i + 1]));
    }
    if t >= 3 {
        assert(is_digit(d[i + 2]));
    }
    let a = d[i] - 48;
    if t == 1 {
        assert(g == a);
        assert(g % 10 == a);
    } else if t == 2 {
        let b = d[i + 1] - 48;
        assert(g == 10 * a + b);
        assert(g / 10 == a && g % 10 == b);
        assert((g / 10) % 10 == a);
    } else {
        let b = d[i + 1] - 48;
        let c = d[i + 2] - 48;
        assert(g == 100 * a + 10 * b + c);
        assert(g / 100 == a);
        assert(g / 10 == 10 * a + b);
        assert((g / 10) % 10 == b);
        assert(g % 10 == c);
        assert((g / 100) % 10 == a);
    }
    assert(group_digits(g, t) =~= d.subrange(i, i + t));
}

proof fn lemma_expand_law(d: Seq<u8>, i: int)
    requires
        all_digits(d),
        0 <= i < d.len(),
        i % 3 == 0,
    ensures
        expand(num_groups_from(d, i), num_last_len(d.len() as int)) == d.subrange(i, d.len() as int),
    decreases d.len() - i,
{
    let n = d.len() as int;
    let t = num_take(n, i);
    let g = num_group(d, i);
    lemma_group_digits(d, i);
    lemma_group_range(d, i);
    let gs = num_groups_from(d, i);
    if n - i <= 3 {
        assert(num_groups_from(d, i + t) =~= Seq::<u32>::empty());
        assert(gs =~= seq![g as u32]);
        assert(num_last_len(n) == t);
    } else {
        let rest = num_groups_from(d, i + 3);
        assert(rest.len() > 0);
        assert(gs.drop_first() =~= rest);
        lemma_expand_law(d, i + 3);
        assert(d.subrange(i, i + 3) + d.subrange(i + 3, n) =~= d.subrange(i, n));
    }
}

proof fn lemma_numeral_law(bits: Seq<bool>, pos: int, d: Seq<u8>, nx: Next)
    requires
        payload_err(GmMode::Numeral, d) is None,
        next_ok(GmMode::Numeral, nx),
        at(bits, pos, num_bits(d) + ctrl_bits(GmMode::Numeral, nx)),
    ensures
        dec_numeral(bits, pos) == Ok::<(Seq<u8>, Next, int), Error>(
            (d, nx, pos + num_bits(d).len() + ctrl_bits(GmMode::Numeral, nx).len()),
        ),
{
    lemma_pw2_small();
    let n = d.len() as int;
    assert(all_digits(d));
    let ind = 3 - num_last_len(n);
    let ctrl = ctrl_bits(GmMode::Numeral, nx);
    let cv: int = match nx {
        Next::Eod => 1018,
        Next::Mode(m2) => 1017 + mode_index(m2),
    };
    assert(ctrl == msb_bits(cv, 10));
    assert(num_next(cv) == Ok::<Next, Error>(nx));
    lemma_assoc(msb_bits(ind, 2), num_groups_bits(d, 0), ctrl);
    lemma_at_concat(bits, pos, msb_bits(ind, 2), num_groups_bits(d, 0) + ctrl);
    lemma_rd_at(bits, pos, ind, 2);
    lemma_groups_law(bits, pos + 2, d, 0, Seq::empty(), cv);
    assert(Seq::<u32>::empty() + num_groups_from(d, 0) =~= num_groups_from(d, 0));
    lemma_expand_law(d, 0);
    assert(d.subrange(0, n) =~= d);
}

proof fn lemma_bytes8_law(bits: Seq<bool>, pos: int, s: Seq<u8>)
    requires
        at(bits, pos, bytes8(s)),
    ensures
        bytes8(s).len() == 8 * s.len(),
        read_bytes(bits, pos, s.len()) == s,
    decreases s.len(),
{
    if s.len() == 0 {
        assert(read_bytes(bits, pos, 0) =~= s);
    } else {
        lemma_pw2_small();
        let rest = s.drop_first();
        lemma_at_concat(bits, pos, msb_bits(s[0] as int, 8), bytes8(rest));
        lemma_bytes8_law(bits, pos + 8, rest);
        crate::codes::gridmatrix::bitstream::lemma_bval_msb(s[0] as int, 8);
        assert forall|j: int| 0 <= j < s.len() implies #[trigger] read_bytes(
            bits,
            pos,
            s.len(),
        )[j] == s[j] by {
            if j > 0 {
                assert(read_bytes(bits, pos + 8, rest.len())[j - 1] == rest[j - 1]);
                assert(pos + 8 * j == pos + 8 + 8 * (j - 1));
            }
        }
        assert(read_bytes(bits, pos, s.len()) =~= s);
    }
}

proof fn lemma_byte_law(bits: Seq<bool>, pos: int, d: Seq<u8>, i: int, acc: Seq<u8>, nx: Next)
    requires
        0 <= i <= d.len(),
        i < d.len() || i == 0,
        next_ok(GmMode::Byte, nx),
        at(bits, pos, byte_bits(d, i) + ctrl_bits(GmMode::Byte, nx)),
    ensures
        dec_byte(bits, pos, acc) == Ok::<(Seq<u8>, Next, int), Error>(
            (
                acc + d.subrange(i, d.len() as int),
                nx,
                pos + byte_bits(d, i).len() + ctrl_bits(GmMode::Byte, nx).len(),
            ),
        ),
    decreases d.len() - i,
{
    lemma_pw2_small();
    let n = d.len() as int;
    let c = byte_chunk(n, i);
    let chunk = d.subrange(i, i + c);
    let ctrl = ctrl_bits(GmMode::Byte, nx);
    let cv: int = match nx {
        Next::Eod => 0,
        Next::Mode(m2) => mode_index(m2) as int,
    };
    assert(ctrl == msb_bits(cv, 4));
    assert(byte_next(cv) == Ok::<Next, Error>(nx));
    if i + c >= n {
        lemma_assoc(msb_bits(c, 9), bytes8(chunk), ctrl);
        lemma_at_concat(bits, pos, msb_bits(c, 9), bytes8(chunk) + ctrl);
        lemma_at_concat(bits, pos + 9, bytes8(chunk), ctrl);
        lemma_rd_at(bits, pos, c, 9);
        lemma_bytes8_law(bits, pos + 9, chunk);
        lemma_rd_at(bits, pos + 9 + 8 * c, cv, 4);
        assert(acc + chunk =~= acc + d.subrange(i, n));
    } else {
        let tail = msb_bits(6, 4) + byte_bits(d, i + c);
        let x = msb_bits(c, 9) + bytes8(chunk);
        assert(byte_bits(d, i) == x + tail);
        lemma_assoc(x, tail, ctrl);
        lemma_assoc(msb_bits(6, 4), byte_bits(d, i + c), ctrl);
        lemma_at_concat(bits, pos, x, tail + ctrl);
        lemma_at_concat(bits, pos, msb_bits(c, 9), bytes8(chunk));
        lemma_at_concat(bits, pos + x.len(), msb_bits(6, 4), byte_bits(d, i + c) + ctrl);
        lemma_rd_at(bits, pos, c, 9);
        lemma_bytes8_law(bits, pos + 9, chunk);
        lemma_rd_at(bits, pos + 9 + 8 * c, 6, 4);
        lemma_byte_law(bits, pos + 9 + 8 * c + 4, d, i + c, acc + chunk, nx);
        assert(acc + chunk + d.subrange(i + c, n) =~= acc + d.subrange(i, n));
    }
}

proof fn lemma_step_law(bits: Seq<bool>, pos: int, m: GmMode, d: Seq<u8>, nx: Next)
    requires
        payload_err(m, d) is None,
        next_ok(m, nx),
        at(bits, pos, payload_bits(m, d) + ctrl_bits(m, nx)),
    ensures
        dec_step(bits, pos, m) == Ok::<(Seq<u8>, Next, int), Error>(
            (d, nx, pos + payload_bits(m, d).len() + ctrl_bits(m, nx).len()),
        ),
{
    match m {
        GmMode::Numeral => lemma_numeral_law(bits, pos, d, nx),
        GmMode::Upper => {
            lemma_alpha_law(bits, pos, d, 65, Seq::empty(), nx);
            assert(Seq::<u8>::empty() + d =~= d);
        },
        GmMode::Lower => {
            lemma_alpha_law(bits, pos, d, 97, Seq::empty(), nx);
            assert(Seq::<u8>::empty() + d =~= d);
        },
        GmMode::Byte => {
            lemma_byte_law(bits, pos, d, 0, Seq::empty(), nx);
            assert(Seq::<u8>::empty() + d.subrange(0, d.len() as int) =~= d);
        },
        _ => {},
    }
}

/// What follows segment `k`.
pub open spec fn seg_next(segs: Seq<(GmMode, Seq<u8>)>, k: int) -> Next {
    if k + 1 < segs.len() {
        Next::Mode(segs[k + 1].0)
    } else {
        Next::Eod
    }
}

/// The bits from segment `k`'s payload to the end of the stream.
pub open spec fn tail_bits(segs: Seq<(GmMode, Seq<u8>)>, k: int) -> Seq<bool>
    decreases segs.len() - k,
{
    if k < 0 || k >= segs.len() {
        Seq::empty()
    } else {
        payload_bits(segs[k].0, segs[k].1) + ctrl_bits(segs[k].0, seg_next(segs, k)) + tail_bits(
            segs,
            k + 1,
        )
    }
}

proof fn lemma_stream_split(segs: Seq<(GmMode, Seq<u8>)>, k: int)
    requires
        0 <= k < segs.len(),
    ensures
        enc_prefix(segs, k) + code_bits(switch_spec(prev_index(segs, k), mode_index(segs[k].0)))
            + tail_bits(segs, k) == stream_spec(segs),
    decreases segs.len() - k,
{
    let sw = code_bits(switch_spec(prev_index(segs, k), mode_index(segs[k].0)));
    let pl = payload_bits(segs[k].0, segs[k].1);
    let ct = ctrl_bits(segs[k].0, seg_next(segs, k));
    assert(enc_prefix(segs, k + 1) == enc_prefix(segs, k) + sw + pl);
    if k + 1 == segs.len() {
        assert(tail_bits(segs, k + 1) =~= Seq::<bool>::empty());
        assert(enc_prefix(segs, k) + sw + tail_bits(segs, k) =~= enc_prefix(segs, k + 1) + ct);
    } else {
        lemma_stream_split(segs, k + 1);
        assert(prev_index(segs, k + 1) == mode_index(segs[k].0));
        assert(enc_prefix(segs, k) + sw + tail_bits(segs, k) =~= enc_prefix(segs, k + 1) + ct
            + tail_bits(segs, k + 1));
    }
}

proof fn lemma_enc_fail_none(segs: Seq<(GmMode, Seq<u8>)>, j: int, k: int)
    requires
        0 <= j <= k < segs.len(),
        enc_fail(segs, j) is None,
    ensures
        switch_spec(prev_index(segs, k), mode_index(segs[k].0)) is Some,
        payload_err(segs[k].0, segs[k].1) is None,
    decreases k - j,
{
    if j < k {
        lemma_enc_fail_none(segs, j + 1, k);
    }
}

proof fn lemma_segs_law(bits: Seq<bool>, pos: int, segs: Seq<(GmMode, Seq<u8>)>, k: int)
    requires
        encodable(segs),
        0 <= k < segs.len(),
        at(bits, pos, tail_bits(segs, k)),
    ensures
        dec_segs(bits, pos, segs[k].0, segs.take(k)) == Ok::<Seq<(GmMode, Seq<u8>)>, Error>(segs),
    decreases segs.len() - k,
{
    let m = segs[k].0;
    let d = segs[k].1;
    let nx = seg_next(segs, k);
    lemma_enc_fail_none(segs, 0, k);
    if k + 1 < segs.len() {
        lemma_enc_fail_none(segs, 0, k + 1);
        assert(prev_index(segs, k + 1) == mode_index(m));
    }
    assert(next_ok(m, nx));
    let pl = payload_bits(m, d);
    let ct = ctrl_bits(m, nx);
    lemma_at_concat(bits, pos, pl + ct, tail_bits(segs, k + 1));
    lemma_step_law(bits, pos, m, d, nx);
    assert(segs.take(k).push((m, d)) =~= segs.take(k + 1));
    if k + 1 < segs.len() {
        lemma_segs_law(bits, pos + pl.len() + ct.len(), segs, k + 1);
    } else {
        assert(segs.take(k + 1) =~= segs);
    }
}

/// Decoding gives back the segments that were encoded, whatever follows the
/// stream.
pub proof fn lemma_decode_inverts_encode(segs: Seq<(GmMode, Seq<u8>)>, rest: Seq<bool>)
    requires
        encodable(segs),
    ensures
        decode_spec(stream_spec(segs) + rest) == Ok::<Seq<(GmMode, Seq<u8>)>, Error>(segs),
{
    lemma_pw2_small();
    let bits = stream_spec(segs) + rest;
    lemma_stream_split(segs, 0);
    lemma_enc_fail_none(segs, 0, 0);
    let sw = code_bits(switch_spec(0, mode_index(segs[0].0)));
    assert(enc_prefix(segs, 0) =~= Seq::<bool>::empty());
    assert(stream_spec(segs) =~= sw + tail_bits(segs, 0));
    assert(bits.subrange(0, stream_spec(segs).len() as int) =~= stream_spec(segs));
    assert(at(bits, 0, sw + tail_bits(segs, 0)));
    lemma_at_concat(bits, 0, sw, tail_bits(segs, 0));
    let sel: int = if segs[0].0 is Byte {
        7
    } else {
        mode_index(segs[0].0) as int
    };
    assert(sw == msb_bits(sel, 4));
    lemma_rd_at(bits, 0, sel, 4);
    assert(start_mode_spec(sel) == Ok::<GmMode, Error>(segs[0].0));
    lemma_segs_law(bits, 4, segs, 0);
    assert(segs.take(0) =~= Seq::<(GmMode, Seq<u8>)>::empty());
}


// ---------------------------------------------------------------------------
// Canonical segmentation
// ---------------------------------------------------------------------------

/// The mode a run starting with byte `b` is given.
pub open spec fn start_class_spec(b: u8) -> GmMode {
    if 48 <= b <= 57 {
        GmMode::Numeral
    } else if 65 <= b <= 90 || b == 32 {
        GmMode::Upper
    } else if 97 <= b <= 122 {
        GmMode::Lower
    } else {
        GmMode::Byte
    }
}

/// Byte `b` may extend a run in mode `m`.
pub open spec fn fits_spec(m: GmMode, b: u8) -> bool {
    match m {
        GmMode::Numeral => 48 <= b <= 57,
        GmMode::Upper => 65 <= b <= 90 || b == 32,
        GmMode::Lower => 97 <= b <= 122 || b == 32,
        GmMode::Byte => !(48 <= b <= 57 || 65 <= b <= 90 || 97 <= b <= 122 || b == 32),
        _ => false,
    }
}

fn start_class(b: u8) -> (m: GmMode)
    ensures
        m == start_class_spec(b),
{
    if 48 <= b && b <= 57 {
        GmMode::Numeral
    } else if (65 <= b && b <= 90) || b == 32 {
        GmMode::Upper
    } else if 97 <= b && b <= 122 {
        GmMode::Lower
    } else {
        GmMode::Byte
    }
}

fn fits(mode: GmMode, b: u8) -> (r: bool)
    ensures
        r == fits_spec(mode, b),
{
    let digit = 48 <= b && b <= 57;
    let upper = 65 <= b && b <= 90;
    let lower = 97 <= b && b <= 122;
    match mode {
        GmMode::Numeral => digit,
        GmMode::Upper => upper || b == 32,
        GmMode::Lower => lower || b == 32,
        GmMode::Byte => !(digit || upper || lower || b == 32),
        _ => false,
    }
}

/// The bytes of the segments, in order.
pub open spec fn flat(segs: Seq<(GmMode, Seq<u8>)>) -> Seq<u8>
    decreases segs.len(),
{
    if segs.len() == 0 {
        Seq::empty()
    } else {
        flat(segs.drop_last()) + segs.last().1
    }
}

/// Segment `k` is a run: it starts a class of its own and every later byte fits it.
pub open spec fn is_run(seg: (GmMode, Seq<u8>)) -> bool {
    &&& seg.1.len() > 0
    &&& seg.0 == start_class_spec(seg.1[0])
    &&& forall|j: int| 1 <= j < seg.1.len() ==> fits_spec(seg.0, #[trigger] seg.1[j])
}

/// `segs` is the greedy split of non-empty `data` into maximal runs.
pub open spec fn runs_of(data: Seq<u8>, segs: Seq<(GmMode, Seq<u8>)>) -> bool {
    &&& flat(segs) == data
    &&& forall|k: int| 0 <= k < segs.len() ==> is_run(#[trigger] segs[k])
    &&& forall|k: int|
        0 <= k < segs.len() - 1 ==> !fits_spec(#[trigger] segs[k].0, segs[k + 1].1[0])
}

/// The canonical segmentation of `data`.
pub open spec fn canonical_ok(data: Seq<u8>, segs: Seq<(GmMode, Seq<u8>)>) -> bool {
    if data.len() == 0 {
        segs == seq![(GmMode::Byte, Seq::<u8>::empty())]
    } else {
        runs_of(data, segs)
    }
}

fn copy_range(data: &[u8], start: usize, end: usize) -> (v: Vec<u8>)
    requires
        start <= end <= data@.len(),
    ensures
        v@ == data@.subrange(start as int, end as int),
{
    let mut v: Vec<u8> = Vec::new();
    let mut i: usize = start;
    while i < end
        invariant
            start <= i <= end,
            end <= data@.len(),
            v@ == data@.subrange(start as int, i as int),
        decreases end - i,
    {
        v.push(data[i]);
        proof {
            assert(v@ =~= data@.subrange(start as int, i + 1));
        }
        i = i + 1;
    }
    v
}

/// Split raw `data` into the canonical `(mode, bytes)` segments: greedy maximal
/// runs, so no two neighbours share a mode and the decoder gives back the same split.
pub fn canonical_segments(data: &[u8]) -> (segs: Vec<(GmMode, Vec<u8>)>)
    ensures
        canonical_ok(data@, seg_view(segs@)),
{
    let n = data.len();
    if n == 0 {
        let segs = vec![(GmMode::Byte, Vec::new())];
        proof {
            assert(seg_view(segs@) =~= seq![(GmMode::Byte, Seq::<u8>::empty())]);
        }
        return segs;
    }
    let mut segs: Vec<(GmMode, Vec<u8>)> = Vec::new();
    let mut i: usize = 0;
    proof {
        assert(seg_view(segs@) =~= Seq::<(GmMode, Seq<u8>)>::empty());
        assert(flat(seg_view(segs@)) =~= data@.subrange(0, 0));
    }
    while i < n
        invariant
            n == data@.len(),
            i <= n,
            flat(seg_view(segs@)) == data@.subrange(0, i as int),
            forall|k: int| 0 <= k < segs@.len() ==> is_run(#[trigger] seg_view(segs@)[k]),
            forall|k: int|
                0 <= k < segs@.len() - 1 ==> !fits_spec(
                    #[trigger] seg_view(segs@)[k].0,
                    seg_view(segs@)[k + 1].1[0],
                ),
            segs@.len() > 0 && i < n ==> !fits_spec(seg_view(segs@).last().0, data@[i as int]),
            segs@.len() == 0 ==> i == 0,
        decreases n - i,
    {
        let mode = start_class(data[i]);
        let start = i;
        i = i + 1;
        while i < n && fits(mode, data[i])
            invariant
                n == data@.len(),
                start < i <= n,
                forall|j: int| start < j < i ==> fits_spec(mode, #[trigger] data@[j]),
            decreases n - i,
        {
            i = i + 1;
        }
        let chunk = copy_range(data, start, i);
        let ghost before = seg_view(segs@);
        segs.push((mode, chunk));
        proof {
            let sv = seg_view(segs@);
            assert(sv =~= before.push((mode, data@.subrange(start as int, i as int))));
            assert(sv.drop_last() =~= before);
            assert(flat(sv) =~= data@.subrange(0, i as int));
            assert(is_run(sv.last())) by {
                let run = sv.last().1;
                assert(run[0] == data@[start as int]);
                assert forall|j: int| 1 <= j < run.len() implies fits_spec(mode, #[trigger] run[j]) by {
                    assert(run[j] == data@[start + j]);
                }
            }
            assert forall|k: int| 0 <= k < sv.len() implies is_run(#[trigger] sv[k]) by {
                if k < before.len() {
                    assert(sv[k] == before[k]);
                }
            }
            assert forall|k: int| 0 <= k < sv.len() - 1 implies !fits_spec(
                #[trigger] sv[k].0,
                sv[k + 1].1[0],
            ) by {
                if k < before.len() - 1 {
                    assert(sv[k] == before[k] && sv[k + 1] == before[k + 1]);
                } else {
                    assert(sv[k] == before.last());
                    assert(sv[k + 1].1[0] == data@[start as int]);
                }
            }
        }
    }
    proof {
        assert(data@.subrange(0, n as int) =~= data@);
    }
    segs
}

/// A run's mode is the start class of its first byte, and a byte always fits its
/// own start class.
proof fn lemma_fits_own_class(b: u8)
    ensures
        fits_spec(start_class_spec(b), b),
        written_mode(start_class_spec(b)),
{
}

/// The canonical segmentation can always be written, and its bytes are the data.
pub proof fn lemma_canonical_encodable(data: Seq<u8>, segs: Seq<(GmMode, Seq<u8>)>)
    requires
        canonical_ok(data, segs),
    ensures
        encodable(segs),
        flat(segs) == data,
{
    if data.len() == 0 {
        assert(enc_fail(segs, 1) is None);
        assert(flat(segs.drop_last()) =~= Seq::<u8>::empty());
        assert(flat(segs) =~= data);
    } else {
        lemma_canonical_tail(segs, 0);
    }
}

proof fn lemma_canonical_tail(segs: Seq<(GmMode, Seq<u8>)>, k: int)
    requires
        0 <= k <= segs.len(),
        segs.len() > 0,
        forall|j: int| 0 <= j < segs.len() ==> is_run(#[trigger] segs[j]),
        forall|j: int| 0 <= j < segs.len() - 1 ==> !fits_spec(#[trigger] segs[j].0, segs[j + 1].1[0]),
    ensures
        enc_fail(segs, k) is None,
    decreases segs.len() - k,
{
    if k < segs.len() {
        lemma_canonical_tail(segs, k + 1);
        let m = segs[k].0;
        let d = segs[k].1;
        assert(is_run(segs[k]));
        lemma_fits_own_class(d[0]);
        if k > 0 {
            assert(is_run(segs[k - 1]));
            assert(!fits_spec(segs[k - 1].0, segs[k].1[0]));
            lemma_fits_own_class(segs[k - 1].1[0]);
            assert(segs[k - 1].0 != m);
        }
        match m {
            GmMode::Numeral => {
                assert forall|i: int| 0 <= i < d.len() implies is_digit(#[trigger] d[i]) by {
                    if i > 0 {
                        assert(fits_spec(m, d[i]));
                    }
                }
            },
            GmMode::Upper => {
                assert forall|i: int| 0 <= i < d.len() implies (#[trigger] alpha_glyph(d[i], 65)) is Some by {
                    if i > 0 {
                        assert(fits_spec(m, d[i]));
                    }
                }
            },
            GmMode::Lower => {
                assert forall|i: int| 0 <= i < d.len() implies (#[trigger] alpha_glyph(d[i], 97)) is Some by {
                    if i > 0 {
                        assert(fits_spec(m, d[i]));
                    }
                }
            },
            _ => {},
        }
    }
}

/// The canonical segmentation of any data is written and read back unchanged, so
/// the bytes come back too.
pub proof fn lemma_canonical_round_trip(data: Seq<u8>, segs: Seq<(GmMode, Seq<u8>)>, rest: Seq<bool>)
    requires
        canonical_ok(data, segs),
    ensures
        decode_spec(stream_spec(segs) + rest) == Ok::<Seq<(GmMode, Seq<u8>)>, Error>(segs),
        flat(segs) == data,
{
    lemma_canonical_encodable(data, segs);
    lemma_decode_inverts_encode(segs, rest);
}

/// The recommended EC level for a symbol of the given version: strongest for the
/// smallest symbols, easing off as capacity grows.
pub fn recommended_ec(version: u8) -> (e: EcLevel)
    ensures
        version == 1 ==> e == EcLevel::L5,
        (version == 2 || version == 3) ==> e == EcLevel::L4,
        version != 1 && version != 2 && version != 3 ==> e == EcLevel::L3,
{
    match version {
        1 => EcLevel::L5,
        2 | 3 => EcLevel::L4,
        _ => EcLevel::L3,
    }
}

} // verus!
