//! PDF417 high-level data compaction and its inverse.
//!
//! Each data [`Segment`] maps to one compaction mode preceded by an explicit mode
//! latch, so segment boundaries survive decoding:
//! - `Mode::Numeric` → Numeric compaction (latch 902),
//! - `Mode::Byte` → Byte compaction (latch 901, or 924 when the length is a
//!   multiple of six),
//! - `Mode::Alphanumeric` → Text compaction (latch 900), covering the full
//!   printable-ASCII set plus HT/LF/CR via the Alpha/Lower/Mixed/Punctuation
//!   sub-modes.
//!
//! Content codewords are always below 900; only mode latches and padding are ≥ 900,
//! which is what lets the decoder split the stream back into segments.
use vstd::prelude::*;
use vstd::arithmetic::div_mod::lemma_fundamental_div_mod;
use crate::error::Error;
use crate::segment::{Mode, Segment};
use super::radix::{
    val, to_base, pw, digits_below, canonical, decimal_to_base900, base900_to_decimal,
    lemma_val_push, lemma_val_prepend, lemma_val_lt_pw, lemma_pw_mono, lemma_to_base_val,
    lemma_to_base_len, lemma_canonical_is_to_base,
};

verus! {

/// Latch to Text compaction.
pub const LATCH_TEXT: u32 = 900;
/// Latch to Byte compaction (length not a multiple of six).
pub const LATCH_BYTE: u32 = 901;
/// Latch to Numeric compaction.
pub const LATCH_NUMERIC: u32 = 902;
/// Latch to Byte compaction (length a multiple of six).
pub const LATCH_BYTE_6: u32 = 924;

/// Text sub-mode control: latch to Lower; from Lower, shift to Alpha.
const TEXT_LL: u8 = 27;
/// Text sub-mode control: latch to Mixed; from Mixed, latch to Alpha.
const TEXT_ML: u8 = 28;
/// Text sub-mode control: shift to Punctuation; from Punctuation, latch to Alpha.
const TEXT_PS: u8 = 29;
/// Text sub-mode control: shift to Alpha (from Lower).
const TEXT_AS: u8 = 27;
/// Text sub-mode control: latch to Punctuation (from Mixed).
const TEXT_PL: u8 = 25;

/// The Mixed sub-mode table: `value -> ASCII byte` (`0` for control values).
pub open spec fn mixed_raw(v: u8) -> u8 {
    match v {
        0 => 48,
        1 => 49,
        2 => 50,
        3 => 51,
        4 => 52,
        5 => 53,
        6 => 54,
        7 => 55,
        8 => 56,
        9 => 57,
        10 => 38,
        11 => 13,
        12 => 9,
        13 => 44,
        14 => 58,
        15 => 35,
        16 => 45,
        17 => 46,
        18 => 36,
        19 => 47,
        20 => 43,
        21 => 37,
        22 => 42,
        23 => 61,
        24 => 94,
        26 => 32,
        _ => 0,
    }
}

/// The Punctuation sub-mode table: `value -> ASCII byte` (`0` for the control value).
pub open spec fn punct_raw(v: u8) -> u8 {
    match v {
        0 => 59,
        1 => 60,
        2 => 62,
        3 => 64,
        4 => 91,
        5 => 92,
        6 => 93,
        7 => 95,
        8 => 96,
        9 => 126,
        10 => 33,
        11 => 13,
        12 => 9,
        13 => 44,
        14 => 58,
        15 => 10,
        16 => 45,
        17 => 46,
        18 => 36,
        19 => 47,
        20 => 34,
        21 => 124,
        22 => 42,
        23 => 40,
        24 => 41,
        25 => 63,
        26 => 123,
        27 => 125,
        28 => 39,
        _ => 0,
    }
}

fn mixed_raw_at(v: u8) -> (r: u8)
    ensures
        r == mixed_raw(v),
{
    match v {
        0 => 48,
        1 => 49,
        2 => 50,
        3 => 51,
        4 => 52,
        5 => 53,
        6 => 54,
        7 => 55,
        8 => 56,
        9 => 57,
        10 => 38,
        11 => 13,
        12 => 9,
        13 => 44,
        14 => 58,
        15 => 35,
        16 => 45,
        17 => 46,
        18 => 36,
        19 => 47,
        20 => 43,
        21 => 37,
        22 => 42,
        23 => 61,
        24 => 94,
        26 => 32,
        _ => 0,
    }
}

fn punct_raw_at(v: u8) -> (r: u8)
    ensures
        r == punct_raw(v),
{
    match v {
        0 => 59,
        1 => 60,
        2 => 62,
        3 => 64,
        4 => 91,
        5 => 92,
        6 => 93,
        7 => 95,
        8 => 96,
        9 => 126,
        10 => 33,
        11 => 13,
        12 => 9,
        13 => 44,
        14 => 58,
        15 => 10,
        16 => 45,
        17 => 46,
        18 => 36,
        19 => 47,
        20 => 34,
        21 => 124,
        22 => 42,
        23 => 40,
        24 => 41,
        25 => 63,
        26 => 123,
        27 => 125,
        28 => 39,
        _ => 0,
    }
}

/// Text compaction sub-mode.
#[derive(Debug, Clone, Copy, PartialEq, Eq, Structural)]
pub enum SubMode {
    Alpha,
    Lower,
    Mixed,
    Punct,
    AlphaShift,
    PunctShift,
}

/// The first Mixed value at or after `v` (values `0..25` and `26`) that stands for `c`.
pub open spec fn mixed_from(c: u8, v: int) -> Option<u8>
    decreases 27 - v,
{
    if v < 0 || v >= 27 {
        None
    } else if v != 25 && mixed_raw(v as u8) == c {
        Some(v as u8)
    } else {
        mixed_from(c, v + 1)
    }
}

/// The first Punctuation value at or after `v` (values `0..29`) that stands for `c`.
pub open spec fn punct_from(c: u8, v: int) -> Option<u8>
    decreases 29 - v,
{
    if v < 0 || v >= 29 {
        None
    } else if punct_raw(v as u8) == c {
        Some(v as u8)
    } else {
        punct_from(c, v + 1)
    }
}

fn mixed_value(c: u8) -> (r: Option<u8>)
    ensures
        r == mixed_from(c, 0),
{
    let mut v: u8 = 0;
    while v < 27
        invariant
            v <= 27,
            mixed_from(c, 0) == mixed_from(c, v as int),
        decreases 27 - v,
    {
        if v != 25 && mixed_raw_at(v) == c {
            return Some(v);
        }
        v = v + 1;
    }
    None
}

fn punct_value(c: u8) -> (r: Option<u8>)
    ensures
        r == punct_from(c, 0),
{
    let mut v: u8 = 0;
    while v < 29
        invariant
            v <= 29,
            punct_from(c, 0) == punct_from(c, v as int),
        decreases 29 - v,
    {
        if punct_raw_at(v) == c {
            return Some(v);
        }
        v = v + 1;
    }
    None
}

/// Space or an uppercase letter.
pub open spec fn upper_sp(c: u8) -> bool {
    c == 32 || (65 <= c && c <= 90)
}

/// Space or a lowercase letter.
pub open spec fn lower_sp(c: u8) -> bool {
    c == 32 || (97 <= c && c <= 122)
}

/// A byte that Text compaction can represent: HT, LF, CR or printable ASCII.
pub open spec fn text_byte(c: u8) -> bool {
    c == 9 || c == 10 || c == 13 || (32 <= c && c <= 126)
}

/// Emit a Punctuation shift and the punctuation value of `c`, staying in `sub`.
pub open spec fn punct_shift(c: u8, sub: SubMode) -> Option<(Seq<u8>, SubMode, bool)> {
    Some((seq![29u8, punct_from(c, 0)->Some_0], sub, true))
}

/// One step of the Text encoder at byte `i` in sub-mode `sub`: the values it emits,
/// the sub-mode it moves to, and whether it consumes the byte; `None` for a byte
/// that Text compaction cannot hold.
pub open spec fn text_step(data: Seq<u8>, i: int, sub: SubMode) -> Option<(Seq<u8>, SubMode, bool)> {
    let ch = data[i];
    if !text_byte(ch) {
        None
    } else {
        match sub {
            SubMode::Alpha => if upper_sp(ch) {
                Some((seq![if ch == 32 { 26u8 } else { (ch - 65) as u8 }], SubMode::Alpha, true))
            } else if lower_sp(ch) {
                Some((seq![27u8], SubMode::Lower, false))
            } else if mixed_from(ch, 0) is Some {
                Some((seq![28u8], SubMode::Mixed, false))
            } else {
                punct_shift(ch, SubMode::Alpha)
            },
            SubMode::Lower => if lower_sp(ch) {
                Some((seq![if ch == 32 { 26u8 } else { (ch - 97) as u8 }], SubMode::Lower, true))
            } else if upper_sp(ch) {
                Some((seq![27u8, (ch - 65) as u8], SubMode::Lower, true))
            } else if mixed_from(ch, 0) is Some {
                Some((seq![28u8], SubMode::Mixed, false))
            } else {
                punct_shift(ch, SubMode::Lower)
            },
            SubMode::Mixed => match mixed_from(ch, 0) {
                Some(v) => Some((seq![v], SubMode::Mixed, true)),
                None => if upper_sp(ch) {
                    Some((seq![28u8], SubMode::Alpha, false))
                } else if lower_sp(ch) {
                    Some((seq![27u8], SubMode::Lower, false))
                } else if i + 1 < data.len() && punct_from(data[i + 1], 0) is Some {
                    Some((seq![25u8], SubMode::Punct, false))
                } else {
                    punct_shift(ch, SubMode::Mixed)
                },
            },
            SubMode::Punct => match punct_from(ch, 0) {
                Some(v) => Some((seq![v], SubMode::Punct, true)),
                None => Some((seq![29u8], SubMode::Alpha, false)),
            },
            _ => None,
        }
    }
}

/// How many sub-mode changes the encoder makes at byte `c` from Alpha before it
/// consumes the byte.
pub open spec fn rank_alpha(c: u8) -> int {
    if upper_sp(c) {
        0
    } else if lower_sp(c) || mixed_from(c, 0) is Some {
        1
    } else {
        0
    }
}

/// The same count from Punctuation.
pub open spec fn rank_punct(c: u8) -> int {
    if punct_from(c, 0) is Some {
        0
    } else {
        1 + rank_alpha(c)
    }
}

/// The same count from any sub-mode, at byte `i`.
pub open spec fn text_rank(data: Seq<u8>, i: int, sub: SubMode) -> int {
    let ch = data[i];
    match sub {
        SubMode::Alpha => rank_alpha(ch),
        SubMode::Lower => if lower_sp(ch) || upper_sp(ch) || mixed_from(ch, 0) is None {
            0
        } else {
            1
        },
        SubMode::Mixed => if mixed_from(ch, 0) is Some {
            0
        } else if upper_sp(ch) || lower_sp(ch) {
            1
        } else if i + 1 < data.len() && punct_from(data[i + 1], 0) is Some {
            1 + rank_punct(ch)
        } else {
            0
        },
        SubMode::Punct => rank_punct(ch),
        _ => 0,
    }
}

/// The termination measure of the Text encoder.
pub open spec fn text_measure(data: Seq<u8>, i: int, sub: SubMode) -> nat {
    if 0 <= i < data.len() {
        (4 * (data.len() - i) + text_rank(data, i, sub)) as nat
    } else {
        0
    }
}

/// The sub-mode values that Text compaction writes for `data[i..]`, starting in `sub`.
pub open spec fn text_run(data: Seq<u8>, i: int, sub: SubMode) -> Option<Seq<u8>>
    decreases text_measure(data, i, sub),
{
    if i < 0 || i >= data.len() {
        Some(Seq::empty())
    } else {
        match text_step(data, i, sub) {
            None => None,
            Some(st) => {
                let next = if st.2 { i + 1 } else { i };
                match text_run(data, next, st.1) {
                    Some(r) => Some(st.0 + r),
                    None => None,
                }
            },
        }
    }
}

fn is_upper_sp(c: u8) -> (r: bool)
    ensures
        r == upper_sp(c),
{
    c == 32 || (65 <= c && c <= 90)
}

fn is_lower_sp(c: u8) -> (r: bool)
    ensures
        r == lower_sp(c),
{
    c == 32 || (97 <= c && c <= 122)
}

fn is_text(c: u8) -> (r: bool)
    ensures
        r == text_byte(c),
{
    c == 9 || c == 10 || c == 13 || (32 <= c && c <= 126)
}

/// Every byte Text compaction accepts is a letter, a space, a Mixed character or a
/// Punctuation character.
pub proof fn lemma_text_byte_classes(c: u8)
    requires
        text_byte(c),
        !upper_sp(c),
        !lower_sp(c),
        mixed_from(c, 0) is None,
    ensures
        punct_from(c, 0) is Some,
{
    reveal_with_fuel(mixed_from, 28);
    reveal_with_fuel(punct_from, 30);
}

/// Convert text bytes into the sequence of `0..29` sub-mode values.
#[verifier::rlimit(40)]
fn text_values(data: &[u8]) -> (r: Result<Vec<u8>, Error>)
    ensures
        match text_run(data@, 0, SubMode::Alpha) {
            Some(v) => r is Ok && r->Ok_0@ == v,
            None => r == Err::<Vec<u8>, Error>(Error::InvalidData),
        },
{
    let mut out: Vec<u8> = Vec::new();
    let mut submode = SubMode::Alpha;
    let mut i: usize = 0;
    while i < data.len()
        invariant
            i <= data.len(),
            !(submode is AlphaShift),
            !(submode is PunctShift),
            match text_run(data@, i as int, submode) {
                Some(rest) => text_run(data@, 0, SubMode::Alpha) == Some(out@ + rest),
                None => text_run(data@, 0, SubMode::Alpha) is None,
            },
        decreases text_measure(data@, i as int, submode),
    {
        let ch = data[i];
        let ghost old_out = out@;
        let ghost old_sub = submode;
        if !is_text(ch) {
            return Err(Error::InvalidData);
        }
        let mut advance = true;
        match submode {
            SubMode::Alpha => {
                if is_upper_sp(ch) {
                    out.push(if ch == 32 { 26 } else { ch - 65 });
                } else if is_lower_sp(ch) {
                    submode = SubMode::Lower;
                    out.push(TEXT_LL);
                    advance = false;
                } else if mixed_value(ch).is_some() {
                    submode = SubMode::Mixed;
                    out.push(TEXT_ML);
                    advance = false;
                } else {
                    proof {
                        lemma_text_byte_classes(ch);
                    }
                    out.push(TEXT_PS);
                    out.push(punct_value(ch).unwrap());
                }
            },
            SubMode::Lower => {
                if is_lower_sp(ch) {
                    out.push(if ch == 32 { 26 } else { ch - 97 });
                } else if is_upper_sp(ch) {
                    out.push(TEXT_AS);
                    out.push(ch - 65);
                } else if mixed_value(ch).is_some() {
                    submode = SubMode::Mixed;
                    out.push(TEXT_ML);
                    advance = false;
                } else {
                    proof {
                        lemma_text_byte_classes(ch);
                    }
                    out.push(TEXT_PS);
                    out.push(punct_value(ch).unwrap());
                }
            },
            SubMode::Mixed => {
                if let Some(v) = mixed_value(ch) {
                    out.push(v);
                } else if is_upper_sp(ch) {
                    submode = SubMode::Alpha;
                    out.push(TEXT_ML);
                    advance = false;
                } else if is_lower_sp(ch) {
                    submode = SubMode::Lower;
                    out.push(TEXT_LL);
                    advance = false;
                } else if i + 1 < data.len() && punct_value(data[i + 1]).is_some() {
                    submode = SubMode::Punct;
                    out.push(TEXT_PL);
                    advance = false;
                } else {
                    proof {
                        lemma_text_byte_classes(ch);
                    }
                    out.push(TEXT_PS);
                    out.push(punct_value(ch).unwrap());
                }
            },
            SubMode::Punct => {
                if let Some(v) = punct_value(ch) {
                    out.push(v);
                } else {
                    submode = SubMode::Alpha;
                    out.push(TEXT_PS);
                    advance = false;
                }
            },
            _ => {
                return Err(Error::InvalidData);
            },
        }
        proof {
            let st = text_step(data@, i as int, old_sub).unwrap();
            assert(st.1 == submode && st.2 == advance);
            assert(out@ =~= old_out + st.0);
        }
        if advance {
            i = i + 1;
        }
    }
    proof {
        assert(text_run(data@, i as int, submode) == Some(Seq::<u8>::empty()));
        assert(out@ + Seq::<u8>::empty() =~= out@);
    }
    Ok(out)
}

/// Pack sub-mode values in pairs `h * 30 + l`, padding an odd tail with the
/// Punctuation shift.
pub open spec fn pack30(v: Seq<u8>) -> Seq<u32>
    decreases v.len(),
{
    if v.len() == 0 {
        Seq::empty()
    } else if v.len() == 1 {
        seq![(v[0] * 30 + 29) as u32]
    } else {
        seq![(v[0] * 30 + v[1]) as u32] + pack30(v.skip(2))
    }
}

fn text_encode(data: &[u8], out: &mut Vec<u32>) -> (r: Result<(), Error>)
    ensures
        match text_run(data@, 0, SubMode::Alpha) {
            Some(v) => r is Ok && final(out)@ == old(out)@ + pack30(v),
            None => r == Err::<(), Error>(Error::InvalidData) && final(out)@ == old(out)@,
        },
{
    let values = match text_values(data) {
        Ok(v) => v,
        Err(e) => {
            return Err(e);
        },
    };
    let ghost start = out@;
    let n = values.len();
    let mut k: usize = 0;
    assert(values@.skip(0) =~= values@);
    while n - k >= 2
        invariant
            n == values.len(),
            k <= n,
            start + pack30(values@) == out@ + pack30(values@.skip(k as int)),
        decreases n - k,
    {
        let h = values[k] as u32;
        let l = values[k + 1] as u32;
        proof {
            let t = values@.skip(k as int);
            assert(t.skip(2) =~= values@.skip(k as int + 2));
            assert(pack30(t) == seq![(t[0] * 30 + t[1]) as u32] + pack30(t.skip(2)));
        }
        out.push(h * 30 + l);
        k = k + 2;
        proof {
            assert(start + pack30(values@) =~= out@ + pack30(values@.skip(k as int)));
        }
    }
    if k < n {
        let h = values[k] as u32;
        proof {
            let t = values@.skip(k as int);
            assert(t.len() == 1);
            assert(pack30(t) == seq![(t[0] * 30 + 29) as u32]);
        }
        out.push(h * 30 + TEXT_PS as u32);
        assert(start + pack30(values@) =~= out@);
    } else {
        assert(values@.skip(k as int) =~= Seq::<u8>::empty());
        assert(start + pack30(values@) =~= out@);
    }
    Ok(())
}

/// The big-endian value of a byte string.
pub open spec fn be_val(s: Seq<u8>) -> nat
    decreases s.len(),
{
    if s.len() == 0 {
        0
    } else {
        be_val(s.drop_last()) * 256 + s.last() as nat
    }
}

/// The five base-900 digits of `t`, most significant first.
pub open spec fn base900_5(t: nat) -> Seq<u32> {
    let t1 = t / 900;
    let t2 = t1 / 900;
    let t3 = t2 / 900;
    let t4 = t3 / 900;
    seq![(t4 % 900) as u32, (t3 % 900) as u32, (t2 % 900) as u32, (t1 % 900) as u32, (t % 900) as u32]
}

/// Byte compaction: each full group of six bytes as five base-900 codewords, then
/// the remaining bytes one codeword each.
pub open spec fn byte_cws(b: Seq<u8>) -> Seq<u32>
    decreases b.len(),
{
    if b.len() >= 6 {
        base900_5(be_val(b.take(6))) + byte_cws(b.skip(6))
    } else {
        b.map_values(|x: u8| x as u32)
    }
}

fn byte_encode(bytes: &[u8], out: &mut Vec<u32>)
    ensures
        final(out)@ == old(out)@ + byte_cws(bytes@),
{
    let ghost start = out@;
    let n = bytes.len();
    let mut g: usize = 0;
    assert(bytes@.skip(0) =~= bytes@);
    while n - g >= 6
        invariant
            n == bytes.len(),
            g <= n,
            start + byte_cws(bytes@) == out@ + byte_cws(bytes@.skip(g as int)),
        decreases n - g,
    {
        let mut t: u64 = 0;
        let mut k: usize = 0;
        while k < 6
            invariant
                k <= 6,
                g + 6 <= n,
                n == bytes.len(),
                t == be_val(bytes@.subrange(g as int, g + k)),
                t < pow256(k as nat),
            decreases 6 - k,
        {
            let b = bytes[g + k];
            proof {
                let c = bytes@.subrange(g as int, g + k);
                assert(bytes@.subrange(g as int, g + k + 1) =~= c.push(b));
                assert(c.push(b).drop_last() =~= c);
                assert(pow256((k + 1) as nat) == 256 * pow256(k as nat));
                assert(pow256(k as nat) <= pow256(5)) by {
                    lemma_pow256_mono(k as nat, 5);
                }
                assert(pow256(5) == 1099511627776) by {
                    reveal_with_fuel(pow256, 6);
                }
                assert(t * 256 + b < 256 * pow256(k as nat)) by (nonlinear_arith)
                    requires
                        t < pow256(k as nat),
                        b < 256,
                ;
            }
            t = t * 256 + b as u64;
            k = k + 1;
        }
        let d4 = (t % 900) as u32;
        let t1 = t / 900;
        let d3 = (t1 % 900) as u32;
        let t2 = t1 / 900;
        let d2 = (t2 % 900) as u32;
        let t3 = t2 / 900;
        let d1 = (t3 % 900) as u32;
        let t4 = t3 / 900;
        let d0 = (t4 % 900) as u32;
        out.push(d0);
        out.push(d1);
        out.push(d2);
        out.push(d3);
        out.push(d4);
        proof {
            let r = bytes@.skip(g as int);
            assert(r.take(6) =~= bytes@.subrange(g as int, g + 6));
            assert(r.skip(6) =~= bytes@.skip(g + 6));
            assert(byte_cws(r) == base900_5(be_val(r.take(6))) + byte_cws(r.skip(6)));
        }
        g = g + 6;
        proof {
            assert(start + byte_cws(bytes@) =~= out@ + byte_cws(bytes@.skip(g as int)));
        }
    }
    let mut k: usize = g;
    while k < n
        invariant
            n == bytes.len(),
            g <= k <= n,
            n - g < 6,
            start + byte_cws(bytes@) == out@ + bytes@.subrange(k as int, n as int).map_values(|x: u8| x as u32),
        decreases n - k,
    {
        out.push(bytes[k] as u32);
        k = k + 1;
        proof {
            assert(start + byte_cws(bytes@) =~= out@ + bytes@.subrange(k as int, n as int).map_values(|x: u8| x as u32));
        }
    }
    proof {
        assert(bytes@.subrange(k as int, n as int).map_values(|x: u8| x as u32) =~= Seq::<u32>::empty());
        assert(start + byte_cws(bytes@) =~= out@);
    }
}

/// `256^k`.
pub open spec fn pow256(k: nat) -> nat
    decreases k,
{
    if k == 0 {
        1
    } else {
        256 * pow256((k - 1) as nat)
    }
}

proof fn lemma_pow256_mono(a: nat, b: nat)
    requires
        a <= b,
    ensures
        pow256(a) <= pow256(b),
    decreases b,
{
    if a < b {
        lemma_pow256_mono(a, (b - 1) as nat);
    }
}

/// An ASCII digit.
pub open spec fn digit_byte(c: u8) -> bool {
    48 <= c && c <= 57
}

/// Every byte of `s` is an ASCII digit.
pub open spec fn all_digits(s: Seq<u8>) -> bool {
    forall|j: int| 0 <= j < s.len() ==> digit_byte(#[trigger] s[j])
}

/// A group of ASCII digits as decimal digit values behind the sentinel `1` that
/// keeps its leading zeros.
pub open spec fn sentinel_digits(d: Seq<u8>) -> Seq<u32> {
    seq![1u32] + d.map_values(|c: u8| (c - 48) as u32)
}

/// Numeric compaction: groups of up to 44 digits, each behind the sentinel `1`,
/// as canonical base-900 numbers.
pub open spec fn num_cws(d: Seq<u8>) -> Seq<u32>
    decreases d.len(),
{
    if d.len() == 0 {
        Seq::empty()
    } else {
        let n: int = if d.len() < 44 { d.len() as int } else { 44 };
        to_base(val(sentinel_digits(d.take(n)), 10), 900) + num_cws(d.skip(n))
    }
}

/// The most digits Numeric compaction packs into one group.
const MAX_NUMERIC_DIGITS: usize = 44;

fn numeric_encode(digits: &[u8], out: &mut Vec<u32>)
    requires
        all_digits(digits@),
    ensures
        final(out)@ == old(out)@ + num_cws(digits@),
{
    let ghost start = out@;
    let n = digits.len();
    let mut idx: usize = 0;
    assert(digits@.skip(0) =~= digits@);
    while idx < n
        invariant
            n == digits.len(),
            idx <= n,
            all_digits(digits@),
            start + num_cws(digits@) == out@ + num_cws(digits@.skip(idx as int)),
        decreases n - idx,
    {
        let len = if n - idx < MAX_NUMERIC_DIGITS { n - idx } else { MAX_NUMERIC_DIGITS };
        let mut dec: Vec<u32> = Vec::new();
        dec.push(1);
        let mut k: usize = 0;
        while k < len
            invariant
                n == digits.len(),
                idx + len <= n,
                k <= len,
                all_digits(digits@),
                dec@ == sentinel_digits(digits@.subrange(idx as int, idx + k)),
            decreases len - k,
        {
            let c = digits[idx + k];
            assert(digit_byte(c));
            dec.push((c - 48) as u32);
            k = k + 1;
            assert(dec@ =~= sentinel_digits(digits@.subrange(idx as int, idx + k)));
        }
        proof {
            assert forall|j: int| 0 <= j < dec@.len() implies #[trigger] dec@[j] < 10 by {
                if j > 0 {
                    assert(digit_byte(digits@[idx + j - 1]));
                }
            }
        }
        let cws = decimal_to_base900(dec);
        let mut t: usize = 0;
        let ghost before = out@;
        while t < cws.len()
            invariant
                t <= cws.len(),
                out@ == before + cws@.take(t as int),
            decreases cws.len() - t,
        {
            out.push(cws[t]);
            t = t + 1;
            assert(out@ =~= before + cws@.take(t as int));
        }
        proof {
            let r = digits@.skip(idx as int);
            assert(r.take(len as int) =~= digits@.subrange(idx as int, idx + len));
            assert(r.skip(len as int) =~= digits@.skip(idx + len));
            assert(cws@.take(cws.len() as int) =~= cws@);
            assert(num_cws(r) == to_base(val(sentinel_digits(r.take(len as int)), 10), 900)
                + num_cws(r.skip(len as int)));
        }
        idx = idx + len;
        assert(start + num_cws(digits@) =~= out@ + num_cws(digits@.skip(idx as int)));
    }
    assert(digits@.skip(n as int) =~= Seq::<u8>::empty());
    assert(start + num_cws(digits@) =~= out@);
}

/// The codewords of one segment, latch first, or the error that refuses it.
pub open spec fn encode_one(seg: Segment) -> Result<Seq<u32>, Error> {
    let d = seg.data@;
    if d.len() == 0 {
        Err(Error::InvalidData)
    } else {
        match seg.mode {
            Mode::Numeric => if all_digits(d) {
                Ok(seq![LATCH_NUMERIC] + num_cws(d))
            } else {
                Err(Error::InvalidData)
            },
            Mode::Byte => Ok(
                seq![if d.len() % 6 == 0 { LATCH_BYTE_6 } else { LATCH_BYTE }] + byte_cws(d),
            ),
            Mode::Alphanumeric => match text_run(d, 0, SubMode::Alpha) {
                Some(v) => Ok(seq![LATCH_TEXT] + pack30(v)),
                None => Err(Error::InvalidData),
            },
            Mode::Kanji => Err(Error::Unsupported),
            Mode::Eci(_) => Err(Error::Unsupported),
        }
    }
}

/// The high-level codeword stream of `segs`: each segment's codewords in order, or
/// the error of the first segment that is refused.
pub open spec fn encode_spec(segs: Seq<Segment>) -> Result<Seq<u32>, Error>
    decreases segs.len(),
{
    if segs.len() == 0 {
        Ok(Seq::empty())
    } else {
        match encode_one(segs[0]) {
            Err(e) => Err(e),
            Ok(a) => match encode_spec(segs.skip(1)) {
                Ok(b) => Ok(a + b),
                Err(e) => Err(e),
            },
        }
    }
}

/// Encode all data segments into the high-level codeword stream (mode latches plus
/// content), without the symbol-length descriptor or padding.
pub fn encode_segments(segments: &[Segment]) -> (r: Result<Vec<u32>, Error>)
    ensures
        match encode_spec(segments@) {
            Ok(s) => r is Ok && r->Ok_0@ == s,
            Err(e) => r == Err::<Vec<u32>, Error>(e),
        },
{
    let mut out: Vec<u32> = Vec::new();
    let mut i: usize = 0;
    assert(segments@.skip(0) =~= segments@);
    while i < segments.len()
        invariant
            i <= segments.len(),
            match encode_spec(segments@.skip(i as int)) {
                Ok(rest) => encode_spec(segments@) == Ok::<Seq<u32>, Error>(out@ + rest),
                Err(e) => encode_spec(segments@) == Err::<Seq<u32>, Error>(e),
            },
        decreases segments.len() - i,
    {
        let seg = &segments[i];
        let ghost before = out@;
        proof {
            let r = segments@.skip(i as int);
            assert(r[0] == *seg);
            assert(r.skip(1) =~= segments@.skip(i + 1));
        }
        if seg.data.len() == 0 {
            return Err(Error::InvalidData);
        }
        match &seg.mode {
            Mode::Numeric => {
                let mut ok = true;
                let mut k: usize = 0;
                while k < seg.data.len()
                    invariant
                        k <= seg.data.len(),
                        ok == (forall|j: int| 0 <= j < k ==> digit_byte(#[trigger] seg.data@[j])),
                    decreases seg.data.len() - k,
                {
                    let c = seg.data[k];
                    if !(48 <= c && c <= 57) {
                        ok = false;
                    }
                    k = k + 1;
                }
                if !ok {
                    return Err(Error::InvalidData);
                }
                out.push(LATCH_NUMERIC);
                numeric_encode(seg.data.as_slice(), &mut out);
            },
            Mode::Byte => {
                out.push(if seg.data.len() % 6 == 0 { LATCH_BYTE_6 } else { LATCH_BYTE });
                byte_encode(seg.data.as_slice(), &mut out);
            },
            Mode::Alphanumeric => {
                out.push(LATCH_TEXT);
                match text_encode(seg.data.as_slice(), &mut out) {
                    Ok(()) => {},
                    Err(e) => {
                        return Err(e);
                    },
                }
            },
            Mode::Kanji => {
                return Err(Error::Unsupported);
            },
            Mode::Eci(_) => {
                return Err(Error::Unsupported);
            },
        }
        i = i + 1;
        proof {
            let a = encode_one(*seg);
            assert(a is Ok);
            assert(out@ =~= before + a->Ok_0);
            match encode_spec(segments@.skip(i as int)) {
                Ok(rest) => {
                    assert(before + (a->Ok_0 + rest) =~= out@ + rest);
                },
                Err(e) => {},
            }
        }
    }
    proof {
        assert(segments@.skip(i as int) =~= Seq::<Segment>::empty());
        assert(out@ + Seq::<u32>::empty() =~= out@);
    }
    Ok(out)
}

/// The two sub-mode values of each Text codeword, high value first.
pub open spec fn text_pairs(cws: Seq<u32>) -> Seq<u8> {
    Seq::new(
        2 * cws.len(),
        |k: int| if k % 2 == 0 { (cws[k / 2] / 30) as u8 } else { (cws[k / 2] % 30) as u8 },
    )
}

/// One step of the Text decoder on value `v` in sub-mode `sub` (with `prior` the
/// sub-mode a shift returns to): the bytes emitted, the next sub-mode and the next
/// `prior`.
pub open spec fn tdec_step(v: u8, sub: SubMode, prior: SubMode) -> (Seq<u8>, SubMode, SubMode) {
    match sub {
        SubMode::Alpha => if v < 26 {
            (seq![(65 + v) as u8], sub, prior)
        } else if v == 26 {
            (seq![32u8], sub, prior)
        } else if v == 27 {
            (Seq::empty(), SubMode::Lower, prior)
        } else if v == 28 {
            (Seq::empty(), SubMode::Mixed, prior)
        } else if v == 29 {
            (Seq::empty(), SubMode::PunctShift, SubMode::Alpha)
        } else {
            (Seq::empty(), sub, prior)
        },
        SubMode::Lower => if v < 26 {
            (seq![(97 + v) as u8], sub, prior)
        } else if v == 26 {
            (seq![32u8], sub, prior)
        } else if v == 27 {
            (Seq::empty(), SubMode::AlphaShift, SubMode::Lower)
        } else if v == 28 {
            (Seq::empty(), SubMode::Mixed, prior)
        } else if v == 29 {
            (Seq::empty(), SubMode::PunctShift, SubMode::Lower)
        } else {
            (Seq::empty(), sub, prior)
        },
        SubMode::Mixed => if v < 25 {
            (seq![mixed_raw(v)], sub, prior)
        } else if v == 25 {
            (Seq::empty(), SubMode::Punct, prior)
        } else if v == 26 {
            (seq![32u8], sub, prior)
        } else if v == 27 {
            (Seq::empty(), SubMode::Lower, prior)
        } else if v == 28 {
            (Seq::empty(), SubMode::Alpha, prior)
        } else if v == 29 {
            (Seq::empty(), SubMode::PunctShift, SubMode::Mixed)
        } else {
            (Seq::empty(), sub, prior)
        },
        SubMode::Punct => if v < 29 {
            (seq![punct_raw(v)], sub, prior)
        } else {
            (Seq::empty(), SubMode::Alpha, prior)
        },
        SubMode::AlphaShift => if v < 26 {
            (seq![(65 + v) as u8], prior, prior)
        } else if v == 26 {
            (seq![32u8], prior, prior)
        } else {
            (Seq::empty(), prior, prior)
        },
        SubMode::PunctShift => if v < 29 {
            (seq![punct_raw(v)], prior, prior)
        } else {
            (Seq::empty(), prior, prior)
        },
    }
}

/// The bytes the Text decoder produces from values `vals[k..]`.
pub open spec fn tdec_run(vals: Seq<u8>, k: int, sub: SubMode, prior: SubMode) -> Seq<u8>
    decreases vals.len() - k,
{
    if k < 0 || k >= vals.len() {
        Seq::empty()
    } else {
        let st = tdec_step(vals[k], sub, prior);
        st.0 + tdec_run(vals, k + 1, st.1, st.2)
    }
}

/// The bytes Text compaction codewords stand for.
pub open spec fn text_dec(cws: Seq<u32>) -> Seq<u8> {
    tdec_run(text_pairs(cws), 0, SubMode::Alpha, SubMode::Alpha)
}

fn text_decode(cws: &[u32]) -> (out: Vec<u8>)
    ensures
        out@ == text_dec(cws@),
{
    let mut values: Vec<u8> = Vec::new();
    let mut j: usize = 0;
    while j < cws.len()
        invariant
            j <= cws.len(),
            values@ == text_pairs(cws@.take(j as int)),
        decreases cws.len() - j,
    {
        let cw = cws[j];
        values.push((cw / 30) as u8);
        values.push((cw % 30) as u8);
        j = j + 1;
        assert(values@ =~= text_pairs(cws@.take(j as int)));
    }
    assert(cws@.take(cws.len() as int) =~= cws@);
    assert(values@ == text_pairs(cws@));
    let mut out: Vec<u8> = Vec::new();
    let mut submode = SubMode::Alpha;
    let mut prior = SubMode::Alpha;
    let mut k: usize = 0;
    while k < values.len()
        invariant
            k <= values.len(),
            out@ + tdec_run(values@, k as int, submode, prior)
                == tdec_run(values@, 0, SubMode::Alpha, SubMode::Alpha),
        decreases values.len() - k,
    {
        let v = values[k];
        let ghost before = out@;
        let ghost st = tdec_step(v, submode, prior);
        let ghost sub0 = submode;
        let ghost prior0 = prior;
        match submode {
            SubMode::Alpha => {
                if v < 26 {
                    out.push(65 + v);
                } else if v == 26 {
                    out.push(32);
                } else if v == 27 {
                    submode = SubMode::Lower;
                } else if v == 28 {
                    submode = SubMode::Mixed;
                } else if v == 29 {
                    prior = SubMode::Alpha;
                    submode = SubMode::PunctShift;
                }
            },
            SubMode::Lower => {
                if v < 26 {
                    out.push(97 + v);
                } else if v == 26 {
                    out.push(32);
                } else if v == 27 {
                    prior = SubMode::Lower;
                    submode = SubMode::AlphaShift;
                } else if v == 28 {
                    submode = SubMode::Mixed;
                } else if v == 29 {
                    prior = SubMode::Lower;
                    submode = SubMode::PunctShift;
                }
            },
            SubMode::Mixed => {
                if v < 25 {
                    out.push(mixed_raw_at(v));
                } else if v == 25 {
                    submode = SubMode::Punct;
                } else if v == 26 {
                    out.push(32);
                } else if v == 27 {
                    submode = SubMode::Lower;
                } else if v == 28 {
                    submode = SubMode::Alpha;
                } else if v == 29 {
                    prior = SubMode::Mixed;
                    submode = SubMode::PunctShift;
                }
            },
            SubMode::Punct => {
                if v < 29 {
                    out.push(punct_raw_at(v));
                } else {
                    submode = SubMode::Alpha;
                }
            },
            SubMode::AlphaShift => {
                submode = prior;
                if v < 26 {
                    out.push(65 + v);
                } else if v == 26 {
                    out.push(32);
                }
            },
            SubMode::PunctShift => {
                submode = prior;
                if v < 29 {
                    out.push(punct_raw_at(v));
                }
            },
        }
        proof {
            assert(out@ =~= before + st.0);
            assert(submode == st.1 && prior == st.2);
            assert(tdec_run(values@, k as int, sub0, prior0)
                == st.0 + tdec_run(values@, k + 1, st.1, st.2));
            assert(before + (st.0 + tdec_run(values@, k + 1, st.1, st.2))
                =~= out@ + tdec_run(values@, k + 1, submode, prior));
        }
        k = k + 1;
    }
    assert(out@ + Seq::<u8>::empty() =~= out@);
    out
}

/// The six bytes of a 48-bit group, most significant first.
pub open spec fn six_bytes(v: u64) -> Seq<u8> {
    seq![(v >> 40u64) as u8, (v >> 32u64) as u8, (v >> 24u64) as u8, (v >> 16u64) as u8,
        (v >> 8u64) as u8, v as u8]
}

/// Byte compaction read back: `groups` runs of five codewords, each the base-900
/// number of six bytes, then one byte per remaining codeword.
pub open spec fn byte_dec_groups(s: Seq<u32>, groups: nat) -> Seq<u8>
    decreases groups,
{
    if groups == 0 || s.len() < 5 {
        s.map_values(|c: u32| c as u8)
    } else {
        six_bytes(val(s.take(5), 900) as u64) + byte_dec_groups(s.skip(5), (groups - 1) as nat)
    }
}

/// The bytes a Byte compaction run stands for: under latch 924 every complete
/// run of five codewords is a six-byte group; under 901 the last codeword is
/// always a single byte.
pub open spec fn byte_dec(s: Seq<u32>, mode: u32) -> Seq<u8> {
    if s.len() == 0 {
        Seq::empty()
    } else {
        let groups: nat = if mode == LATCH_BYTE_6 { s.len() / 5 } else { ((s.len() - 1) / 5) as nat };
        byte_dec_groups(s, groups)
    }
}

fn byte_decode(slice: &[u32], mode: u32) -> (out: Vec<u8>)
    requires
        digits_below(slice@, 900),
    ensures
        out@ == byte_dec(slice@, mode),
{
    let len = slice.len();
    if len == 0 {
        return Vec::new();
    }
    let groups = if mode == LATCH_BYTE_6 { len / 5 } else { (len - 1) / 5 };
    let mut out: Vec<u8> = Vec::new();
    let mut g: usize = 0;
    assert(slice@.skip(0) =~= slice@);
    while g < groups
        invariant
            len == slice.len(),
            groups * 5 <= len,
            g <= groups,
            digits_below(slice@, 900),
            out@ + byte_dec_groups(slice@.skip(5 * g), (groups - g) as nat)
                == byte_dec_groups(slice@, groups as nat),
        decreases groups - g,
    {
        let mut v: u64 = 0;
        let mut k: usize = 0;
        while k < 5
            invariant
                k <= 5,
                len == slice.len(),
                (g + 1) * 5 <= len,
                digits_below(slice@, 900),
                v == val(slice@.subrange(5 * g, 5 * g + k), 900),
                v < pw(900, k as nat),
            decreases 5 - k,
        {
            let c = slice[g * 5 + k];
            proof {
                let sub = slice@.subrange(5 * g, 5 * g + k);
                assert(slice@.subrange(5 * g, 5 * g + k + 1) =~= sub.push(c));
                lemma_val_push(sub, c, 900);
                assert(c < 900);
                assert(pw(900, (k + 1) as nat) == 900 * pw(900, k as nat));
                assert(pw(900, k as nat) <= 656100000000) by {
                    reveal_with_fuel(pw, 6);
                }
                assert(v * 900 + c < 900 * pw(900, k as nat)) by (nonlinear_arith)
                    requires
                        v < pw(900, k as nat),
                        c < 900,
                ;
            }
            v = v * 900 + c as u64;
            k = k + 1;
        }
        out.push((v >> 40) as u8);
        out.push((v >> 32) as u8);
        out.push((v >> 24) as u8);
        out.push((v >> 16) as u8);
        out.push((v >> 8) as u8);
        out.push(v as u8);
        proof {
            let r = slice@.skip(5 * g);
            assert(r.take(5) =~= slice@.subrange(5 * g, 5 * g + 5));
            assert(r.skip(5) =~= slice@.skip(5 * (g + 1)));
            assert(byte_dec_groups(r, (groups - g) as nat)
                == six_bytes(val(r.take(5), 900) as u64) + byte_dec_groups(r.skip(5), (groups - g - 1) as nat));
        }
        g = g + 1;
        proof {
            let r = slice@.skip(5 * g);
            assert(out@ + byte_dec_groups(r, (groups - g) as nat)
                =~= byte_dec_groups(slice@, groups as nat)) by {
                let b = out@.subrange(0, out@.len() - 6);
                assert(out@ =~= b + six_bytes(v));
            }
        }
    }
    let mut k: usize = groups * 5;
    let ghost base = out@;
    while k < len
        invariant
            len == slice.len(),
            groups * 5 <= k <= len,
            out@ == base + slice@.subrange(groups * 5, k as int).map_values(|c: u32| c as u8),
        decreases len - k,
    {
        out.push(slice[k] as u8);
        k = k + 1;
        assert(out@ =~= base + slice@.subrange(groups * 5, k as int).map_values(|c: u32| c as u8));
    }
    proof {
        let r = slice@.skip(5 * groups);
        assert(r =~= slice@.subrange(groups * 5, len as int));
        assert(byte_dec_groups(r, 0) == r.map_values(|c: u32| c as u8));
    }
    out
}

/// Numeric compaction read back: each group of up to 15 codewords is one
/// base-900 number whose decimal digits must begin with the sentinel `1`; the
/// digits after it are the payload.
pub open spec fn num_dec(s: Seq<u32>) -> Result<Seq<u8>, Error>
    decreases s.len(),
{
    if s.len() == 0 {
        Ok(Seq::empty())
    } else {
        let n: int = if s.len() < 15 { s.len() as int } else { 15 };
        let dec = to_base(val(s.take(n), 900), 10);
        if dec[0] != 1 {
            Err(Error::Undecodable)
        } else {
            match num_dec(s.skip(n)) {
                Ok(r) => Ok(dec.skip(1).map_values(|d: u32| (48 + d) as u8) + r),
                Err(e) => Err(e),
            }
        }
    }
}

/// The most codewords one Numeric compaction group spans.
const MAX_NUMERIC_CODEWORDS: usize = 15;

fn numeric_decode(slice: &[u32]) -> (r: Result<Vec<u8>, Error>)
    requires
        digits_below(slice@, 900),
    ensures
        match num_dec(slice@) {
            Ok(s) => r is Ok && r->Ok_0@ == s,
            Err(e) => r == Err::<Vec<u8>, Error>(e),
        },
{
    let n = slice.len();
    let mut out: Vec<u8> = Vec::new();
    let mut idx: usize = 0;
    assert(slice@.skip(0) =~= slice@);
    while idx < n
        invariant
            n == slice.len(),
            idx <= n,
            digits_below(slice@, 900),
            match num_dec(slice@.skip(idx as int)) {
                Ok(rest) => num_dec(slice@) == Ok::<Seq<u8>, Error>(out@ + rest),
                Err(e) => num_dec(slice@) == Err::<Seq<u8>, Error>(e),
            },
        decreases n - idx,
    {
        let len = if n - idx < MAX_NUMERIC_CODEWORDS { n - idx } else { MAX_NUMERIC_CODEWORDS };
        let mut chunk: Vec<u32> = Vec::new();
        let mut k: usize = 0;
        while k < len
            invariant
                n == slice.len(),
                idx + len <= n,
                k <= len,
                chunk@ == slice@.subrange(idx as int, idx + k),
            decreases len - k,
        {
            chunk.push(slice[idx + k]);
            k = k + 1;
            assert(chunk@ =~= slice@.subrange(idx as int, idx + k));
        }
        proof {
            assert forall|j: int| 0 <= j < chunk@.len() implies #[trigger] chunk@[j] < 900 by {
                assert(chunk@[j] == slice@[idx + j]);
            }
        }
        let dec = base900_to_decimal(chunk.as_slice());
        let ghost r = slice@.skip(idx as int);
        proof {
            assert(r.take(len as int) =~= chunk@);
            assert(r.skip(len as int) =~= slice@.skip(idx + len));
        }
        if dec[0] != 1 {
            return Err(Error::Undecodable);
        }
        let ghost before = out@;
        let mut t: usize = 1;
        while t < dec.len()
            invariant
                1 <= t <= dec.len(),
                canonical(dec@, 10),
                out@ == before + dec@.subrange(1, t as int).map_values(|d: u32| (48 + d) as u8),
            decreases dec.len() - t,
        {
            let d = dec[t];
            assert(d < 10);
            out.push(48 + d as u8);
            t = t + 1;
            assert(out@ =~= before + dec@.subrange(1, t as int).map_values(|d: u32| (48 + d) as u8));
        }
        idx = idx + len;
        proof {
            assert(dec@.subrange(1, dec.len() as int) =~= dec@.skip(1));
            match num_dec(slice@.skip(idx as int)) {
                Ok(rest) => {
                    assert(before + (dec@.skip(1).map_values(|d: u32| (48 + d) as u8) + rest)
                        =~= out@ + rest);
                },
                Err(e) => {},
            }
        }
    }
    proof {
        assert(slice@.skip(idx as int) =~= Seq::<u32>::empty());
        assert(out@ + Seq::<u8>::empty() =~= out@);
    }
    Ok(out)
}

/// The first index at or after `j` holding a codeword of 900 or more, or the end.
pub open spec fn run_end(cws: Seq<u32>, j: int) -> int
    decreases cws.len() - j,
{
    if j < 0 || j >= cws.len() || cws[j] >= 900 {
        j
    } else {
        run_end(cws, j + 1)
    }
}

/// A run ends at or after its start and no later than the stream, and every
/// codeword inside it is below 900.
pub proof fn lemma_run_end(cws: Seq<u32>, j: int)
    requires
        0 <= j <= cws.len(),
    ensures
        j <= run_end(cws, j) <= cws.len(),
        forall|k: int| j <= k < run_end(cws, j) ==> #[trigger] cws[k] < 900,
    decreases cws.len() - j,
{
    if j < cws.len() && cws[j] < 900 {
        lemma_run_end(cws, j + 1);
    }
}

/// Segments as plain values: each one's mode and bytes.
pub open spec fn seg_view(s: Seq<Segment>) -> Seq<(Mode, Seq<u8>)> {
    s.map_values(|x: Segment| (x.mode, x.data@))
}

/// Put `(m, b)` in front of the segments that follow, unless `b` is empty (an
/// empty run is padding).
pub open spec fn keep_run(m: Mode, b: Seq<u8>, rest: Result<Seq<(Mode, Seq<u8>)>, Error>) -> Result<
    Seq<(Mode, Seq<u8>)>,
    Error,
> {
    match rest {
        Ok(r) => if b.len() == 0 {
            Ok(r)
        } else {
            Ok(seq![(m, b)] + r)
        },
        Err(e) => Err(e),
    }
}

/// The segments that the codewords `cws[i..]` stand for.
pub open spec fn segs_from(cws: Seq<u32>, i: int) -> Result<Seq<(Mode, Seq<u8>)>, Error>
    decreases cws.len() - i,
{
    if i < 0 || i >= cws.len() {
        Ok(Seq::empty())
    } else {
        let latch = cws[i];
        if latch == LATCH_TEXT || latch == LATCH_NUMERIC || latch == LATCH_BYTE
            || latch == LATCH_BYTE_6 {
            proof {
                lemma_run_end(cws, i + 1);
            }
            let e = run_end(cws, i + 1);
            let run = cws.subrange(i + 1, e);
            if latch == LATCH_TEXT {
                keep_run(Mode::Alphanumeric, text_dec(run), segs_from(cws, e))
            } else if latch == LATCH_NUMERIC {
                match num_dec(run) {
                    Ok(d) => keep_run(Mode::Numeric, d, segs_from(cws, e)),
                    Err(x) => Err(x),
                }
            } else {
                keep_run(Mode::Byte, byte_dec(run, latch), segs_from(cws, e))
            }
        } else {
            proof {
                lemma_run_end(cws, i);
            }
            let e = run_end(cws, i);
            if e == i {
                Err(Error::Undecodable)
            } else {
                keep_run(Mode::Alphanumeric, text_dec(cws.subrange(i, e)), segs_from(cws, e))
            }
        }
    }
}

/// What the data codewords (symbol-length descriptor first) decode to.
pub open spec fn decode_spec(data: Seq<u32>) -> Result<Seq<(Mode, Seq<u8>)>, Error> {
    if data.len() == 0 {
        Err(Error::Undecodable)
    } else if data[0] == 0 || data[0] > data.len() {
        Err(Error::Undecodable)
    } else {
        segs_from(data.subrange(1, data[0] as int), 0)
    }
}

fn copy_range(s: &[u32], a: usize, b: usize) -> (r: Vec<u32>)
    requires
        a <= b <= s.len(),
    ensures
        r@ == s@.subrange(a as int, b as int),
{
    let mut r: Vec<u32> = Vec::new();
    let mut k: usize = a;
    while k < b
        invariant
            a <= k <= b,
            b <= s.len(),
            r@ == s@.subrange(a as int, k as int),
        decreases b - k,
    {
        r.push(s[k]);
        k = k + 1;
        assert(r@ =~= s@.subrange(a as int, k as int));
    }
    r
}

/// Parse corrected data codewords (with the symbol-length descriptor at index 0)
/// back into segments, dropping trailing pad codewords.
pub fn decode_segments(data: &[u32]) -> (r: Result<Vec<Segment>, Error>)
    ensures
        match decode_spec(data@) {
            Ok(s) => r is Ok && seg_view(r->Ok_0@) == s,
            Err(e) => r == Err::<Vec<Segment>, Error>(e),
        },
{
    if data.len() == 0 {
        return Err(Error::Undecodable);
    }
    let n0 = data[0];
    if n0 == 0 || n0 as usize > data.len() {
        return Err(Error::Undecodable);
    }
    let n = n0 as usize;
    let cv = copy_range(data, 1, n);
    let cws = cv.as_slice();
    let len = cws.len();
    let mut segments: Vec<Segment> = Vec::new();
    let mut i: usize = 0;
    while i < len
        invariant
            len == cws.len(),
            i <= len,
            cws@ == data@.subrange(1, data[0] as int),
            data.len() > 0 && data[0] != 0 && data[0] <= data.len(),
            match segs_from(cws@, i as int) {
                Ok(rest) => segs_from(cws@, 0) == Ok::<Seq<(Mode, Seq<u8>)>, Error>(
                    seg_view(segments@) + rest,
                ),
                Err(e) => segs_from(cws@, 0) == Err::<Seq<(Mode, Seq<u8>)>, Error>(e),
            },
        decreases len - i,
    {
        let ghost i0 = i as int;
        let ghost before = segments@;
        let latch = cws[i];
        let is_latch = latch == LATCH_TEXT || latch == LATCH_NUMERIC || latch == LATCH_BYTE
            || latch == LATCH_BYTE_6;
        let start = if is_latch { i + 1 } else { i };
        i = start;
        proof {
            lemma_run_end(cws@, start as int);
        }
        while i < len && cws[i] < 900
            invariant
                len == cws.len(),
                start <= i <= len,
                run_end(cws@, start as int) == run_end(cws@, i as int),
            decreases len - i,
        {
            i = i + 1;
        }
        let ghost e = run_end(cws@, start as int);
        assert(i == e);
        let run = copy_range(cws, start, i);
        proof {
            assert forall|k: int| 0 <= k < run@.len() implies #[trigger] run@[k] < 900 by {
                assert(run@[k] == cws@[start + k]);
            }
        }
        let ghost rest = segs_from(cws@, i as int);
        if !is_latch && i == start {
            return Err(Error::Undecodable);
        }
        let seg_opt: Option<Segment> = if latch == LATCH_NUMERIC {
            let digits = match numeric_decode(run.as_slice()) {
                Ok(d) => d,
                Err(x) => {
                    return Err(x);
                },
            };
            if digits.len() == 0 {
                None
            } else {
                Some(Segment::numeric(digits))
            }
        } else if latch == LATCH_BYTE || latch == LATCH_BYTE_6 {
            let bytes = byte_decode(run.as_slice(), latch);
            if bytes.len() == 0 {
                None
            } else {
                Some(Segment::byte(bytes))
            }
        } else {
            let bytes = text_decode(run.as_slice());
            if bytes.len() == 0 {
                None
            } else {
                Some(Segment::alphanumeric(bytes))
            }
        };
        let ghost so = seg_opt;
        match seg_opt {
            Some(sg) => {
                segments.push(sg);
            },
            None => {},
        }
        proof {
            assert(segs_from(cws@, i0) == keep_run(
                if latch == LATCH_NUMERIC { Mode::Numeric } else if latch == LATCH_BYTE
                    || latch == LATCH_BYTE_6 { Mode::Byte } else { Mode::Alphanumeric },
                match so { Some(sg) => sg.data@, None => Seq::<u8>::empty() },
                rest,
            ));
            match rest {
                Ok(rr) => {
                    match so {
                        Some(sg) => {
                            assert(seg_view(segments@) =~= seg_view(before).push((sg.mode, sg.data@)));
                            assert(seg_view(before) + (seq![(sg.mode, sg.data@)] + rr)
                                =~= seg_view(segments@) + rr);
                        },
                        None => {
                            assert(segments@ == before);
                        },
                    }
                },
                Err(x) => {},
            }
        }
    }
    proof {
        assert(seg_view(segments@) + Seq::<(Mode, Seq<u8>)>::empty() =~= seg_view(segments@));
    }
    Ok(segments)
}

/// A full group of 44 digits behind its sentinel needs exactly fifteen base-900
/// codewords, and a shorter one at most fifteen.
proof fn lemma_numeric_group_bounds()
    ensures
        pw(900, 14) <= pw(10, 44),
        2 * pw(10, 44) <= pw(900, 15),
{
    reveal_with_fuel(pw, 46);
}

/// A digit group behind its sentinel is a canonical decimal numeral between
/// `10^len` and `2 * 10^len`.
proof fn lemma_sentinel_val(g: Seq<u8>)
    requires
        all_digits(g),
    ensures
        pw(10, g.len()) <= val(sentinel_digits(g), 10) < 2 * pw(10, g.len()),
        canonical(sentinel_digits(g), 10),
{
    let ds = g.map_values(|c: u8| (c - 48) as u32);
    assert(digits_below(ds, 10)) by {
        assert forall|j: int| 0 <= j < ds.len() implies #[trigger] ds[j] < 10 by {
            assert(digit_byte(g[j]));
        }
    }
    lemma_val_prepend(ds, 1, 10);
    lemma_val_lt_pw(ds, 10);
    let sd = sentinel_digits(g);
    assert(digits_below(sd, 10)) by {
        assert forall|j: int| 0 <= j < sd.len() implies #[trigger] sd[j] < 10 by {
            if j > 0 {
                assert(sd[j] == ds[j - 1]);
            }
        }
    }
    assert(1 * pw(10, g.len()) == pw(10, g.len())) by (nonlinear_arith);
}

/// Numeric compaction is lossless: reading back the codewords of a run of digits
/// gives the same digits, leading zeros included.
pub proof fn lemma_numeric_round_trip(d: Seq<u8>)
    requires
        all_digits(d),
    ensures
        num_dec(num_cws(d)) == Ok::<Seq<u8>, Error>(d),
    decreases d.len(),
{
    if d.len() == 0 {
        assert(num_cws(d) =~= Seq::<u32>::empty());
        assert(d =~= Seq::<u8>::empty());
    } else {
        let n: int = if d.len() < 44 { d.len() as int } else { 44 };
        let g = d.take(n);
        let rest = d.skip(n);
        assert(all_digits(g)) by {
            assert forall|j: int| 0 <= j < g.len() implies digit_byte(#[trigger] g[j]) by {
                assert(g[j] == d[j]);
            }
        }
        assert(all_digits(rest)) by {
            assert forall|j: int| 0 <= j < rest.len() implies digit_byte(#[trigger] rest[j]) by {
                assert(rest[j] == d[j + n]);
            }
        }
        let sd = sentinel_digits(g);
        let v = val(sd, 10);
        let c = to_base(v, 900);
        lemma_to_base_val(v, 900);
        lemma_sentinel_val(g);
        lemma_canonical_is_to_base(sd, 10);
        lemma_numeric_group_bounds();
        lemma_pw_mono(10, g.len(), 44);
        lemma_to_base_len(v, 900, 15);
        assert(c.len() <= 15);
        if rest.len() > 0 {
            assert(g.len() == 44);
            assert(c.len() == 15);
        }
        lemma_numeric_round_trip(rest);
        let s = num_cws(d);
        assert(s == c + num_cws(rest));
        let nn: int = if s.len() < 15 { s.len() as int } else { 15 };
        if rest.len() == 0 {
            assert(num_cws(rest) =~= Seq::<u32>::empty());
            assert(s =~= c);
        } else {
            assert(num_cws(rest).len() > 0) by {
                let m: int = if rest.len() < 44 { rest.len() as int } else { 44 };
                lemma_to_base_val(val(sentinel_digits(rest.take(m)), 10), 900);
            }
        }
        assert(nn == c.len());
        assert(s.take(nn) =~= c);
        assert(s.skip(nn) =~= num_cws(rest));
        let dec = to_base(val(s.take(nn), 900), 10);
        assert(dec == sd);
        assert(dec[0] == 1);
        let back = dec.skip(1).map_values(|x: u32| (48 + x) as u8);
        assert(back =~= g) by {
            assert(back.len() == g.len());
            assert forall|j: int| 0 <= j < g.len() implies #[trigger] back[j] == g[j] by {
                assert(digit_byte(g[j]));
                assert(dec.skip(1)[j] == sd[j + 1]);
            }
        }
        assert(g + rest =~= d);
    }
}

/// The value of six bytes, written out.
proof fn lemma_be_val_six(c: Seq<u8>)
    requires
        c.len() == 6,
    ensures
        be_val(c) == ((((c[0] * 256 + c[1]) * 256 + c[2]) * 256 + c[3]) * 256 + c[4]) * 256 + c[5],
        be_val(c) < 0x1_0000_0000_0000,
{
    let c5 = c.drop_last();
    let c4 = c5.drop_last();
    let c3 = c4.drop_last();
    let c2 = c3.drop_last();
    let c1 = c2.drop_last();
    let c0 = c1.drop_last();
    assert(c0 =~= Seq::<u8>::empty());
    assert(be_val(c0) == 0);
    assert(be_val(c1) == c[0]);
    assert(be_val(c2) == be_val(c1) * 256 + c[1]);
    assert(be_val(c3) == be_val(c2) * 256 + c[2]);
    assert(be_val(c4) == be_val(c3) * 256 + c[3]);
    assert(be_val(c5) == be_val(c4) * 256 + c[4]);
    assert(be_val(c) == be_val(c5) * 256 + c[5]);
    let (a0, a1, a2, a3, a4, a5) = (c[0] as int, c[1] as int, c[2] as int, c[3] as int, c[4] as int, c[5] as int);
    assert(((((a0 * 256 + a1) * 256 + a2) * 256 + a3) * 256 + a4) * 256 + a5 < 0x1_0000_0000_0000)
        by (nonlinear_arith)
        requires
            0 <= a0 < 256,
            0 <= a1 < 256,
            0 <= a2 < 256,
            0 <= a3 < 256,
            0 <= a4 < 256,
            0 <= a5 < 256,
    ;
}

/// Five base-900 digits read back give the number they were taken from, for any
/// number below 2^48.
proof fn lemma_base900_5_val(t: nat)
    requires
        t < 0x1_0000_0000_0000,
    ensures
        val(base900_5(t), 900) == t,
        digits_below(base900_5(t), 900),
{
    let t1 = t / 900;
    let t2 = t1 / 900;
    let t3 = t2 / 900;
    let t4 = t3 / 900;
    let r0 = t % 900;
    let r1 = t1 % 900;
    let r2 = t2 % 900;
    let r3 = t3 % 900;
    lemma_fundamental_div_mod(t as int, 900);
    lemma_fundamental_div_mod(t1 as int, 900);
    lemma_fundamental_div_mod(t2 as int, 900);
    lemma_fundamental_div_mod(t3 as int, 900);
    assert(t4 < 900) by (nonlinear_arith)
        requires
            t == 900 * t1 + r0,
            t1 == 900 * t2 + r1,
            t2 == 900 * t3 + r2,
            t3 == 900 * t4 + r3,
            r0 >= 0,
            r1 >= 0,
            r2 >= 0,
            r3 >= 0,
            t < 0x1_0000_0000_0000,
    ;
    let e0 = Seq::<u32>::empty();
    let s1 = e0.push(t4 as u32);
    let s2 = s1.push(r3 as u32);
    let s3 = s2.push(r2 as u32);
    let s4 = s3.push(r1 as u32);
    let s5 = s4.push(r0 as u32);
    assert(base900_5(t) =~= s5);
    lemma_val_empty_here();
    lemma_val_push(e0, t4 as u32, 900);
    lemma_val_push(s1, r3 as u32, 900);
    lemma_val_push(s2, r2 as u32, 900);
    lemma_val_push(s3, r1 as u32, 900);
    lemma_val_push(s4, r0 as u32, 900);
    assert(val(s5, 900) == t) by (nonlinear_arith)
        requires
            val(s5, 900) == ((((0 * 900 + t4) * 900 + r3) * 900 + r2) * 900 + r1) * 900 + r0,
            t == 900 * t1 + r0,
            t1 == 900 * t2 + r1,
            t2 == 900 * t3 + r2,
            t3 == 900 * t4 + r3,
    ;
}

/// The bytes of a 48-bit big-endian number.
proof fn lemma_six_bytes_of(c: Seq<u8>, x: u64)
    requires
        c.len() == 6,
        x == ((((c[0] * 256 + c[1]) * 256 + c[2]) * 256 + c[3]) * 256 + c[4]) * 256 + c[5],
    ensures
        six_bytes(x) == c,
{
    let (c0, c1, c2, c3, c4, c5) = (c[0] as u64, c[1] as u64, c[2] as u64, c[3] as u64, c[4] as u64, c[5] as u64);
    assert((x >> 40u64) as u8 == c0 && (x >> 32u64) as u8 == c1 && (x >> 24u64) as u8 == c2
        && (x >> 16u64) as u8 == c3 && (x >> 8u64) as u8 == c4 && x as u8 == c5) by (bit_vector)
        requires
            x == ((((c0 * 256 + c1) * 256 + c2) * 256 + c3) * 256 + c4) * 256 + c5,
            c0 < 256,
            c1 < 256,
            c2 < 256,
            c3 < 256,
            c4 < 256,
            c5 < 256,
    ;
    assert(six_bytes(x) =~= c);
}

proof fn lemma_val_empty_here()
    ensures
        val(Seq::<u32>::empty(), 900) == 0,
{
}

/// Byte compaction writes five codewords per full group of six bytes and one per
/// remaining byte, each below 900.
proof fn lemma_byte_cws_shape(b: Seq<u8>)
    ensures
        byte_cws(b).len() == 5 * (b.len() / 6) + b.len() % 6,
        digits_below(byte_cws(b), 900),
    decreases b.len(),
{
    if b.len() >= 6 {
        let c = b.take(6);
        lemma_be_val_six(c);
        lemma_base900_5_val(be_val(c));
        lemma_byte_cws_shape(b.skip(6));
        let x = base900_5(be_val(c));
        let y = byte_cws(b.skip(6));
        assert(digits_below(x + y, 900)) by {
            assert forall|j: int| 0 <= j < (x + y).len() implies #[trigger] (x + y)[j] < 900 by {
                if j < 5 {
                    assert((x + y)[j] == x[j]);
                } else {
                    assert((x + y)[j] == y[j - 5]);
                }
            }
        }
    }
}

/// Reading back the groups of Byte compaction gives the bytes.
proof fn lemma_byte_groups(b: Seq<u8>)
    ensures
        byte_dec_groups(byte_cws(b), (b.len() / 6) as nat) == b,
    decreases b.len(),
{
    let s = byte_cws(b);
    if b.len() >= 6 {
        let c = b.take(6);
        let t = be_val(c);
        lemma_be_val_six(c);
        lemma_base900_5_val(t);
        lemma_six_bytes_of(c, t as u64);
        let x = base900_5(t);
        let y = byte_cws(b.skip(6));
        assert(s == x + y);
        assert(s.take(5) =~= x);
        assert(s.skip(5) =~= y);
        assert((b.len() / 6) as nat - 1 == (b.skip(6).len() / 6) as nat);
        lemma_byte_groups(b.skip(6));
        assert(c + b.skip(6) =~= b);
    } else {
        assert(s.map_values(|x: u32| x as u8) =~= b);
    }
}

/// Byte compaction is lossless: reading back the codewords of a non-empty byte run,
/// under the latch the encoder chose, gives the same bytes.
pub proof fn lemma_byte_round_trip(b: Seq<u8>)
    requires
        b.len() >= 1,
    ensures
        byte_dec(byte_cws(b), if b.len() % 6 == 0 { LATCH_BYTE_6 } else { LATCH_BYTE }) == b,
{
    lemma_byte_cws_shape(b);
    lemma_byte_groups(b);
    let s = byte_cws(b);
    assert(s.len() >= 1);
    if b.len() % 6 == 0 {
        assert(s.len() / 5 == b.len() / 6);
    } else {
        assert((s.len() - 1) / 5 == b.len() / 6);
    }
}

/// Every Numeric compaction codeword is below 900.
proof fn lemma_num_cws_below(d: Seq<u8>)
    ensures
        digits_below(num_cws(d), 900),
    decreases d.len(),
{
    if d.len() > 0 {
        let n: int = if d.len() < 44 { d.len() as int } else { 44 };
        let x = to_base(val(sentinel_digits(d.take(n)), 10), 900);
        lemma_to_base_val(val(sentinel_digits(d.take(n)), 10), 900);
        lemma_num_cws_below(d.skip(n));
        let y = num_cws(d.skip(n));
        assert forall|j: int| 0 <= j < (x + y).len() implies #[trigger] (x + y)[j] < 900 by {
            if j < x.len() {
                assert((x + y)[j] == x[j]);
            } else {
                assert((x + y)[j] == y[j - x.len()]);
            }
        }
    }
}

/// A run that holds only content codewords from `j` on reaches the end.
proof fn lemma_run_end_full(cws: Seq<u32>, j: int)
    requires
        0 <= j <= cws.len(),
        forall|k: int| j <= k < cws.len() ==> #[trigger] cws[k] < 900,
    ensures
        run_end(cws, j) == cws.len(),
    decreases cws.len() - j,
{
    if j < cws.len() {
        lemma_run_end_full(cws, j + 1);
    }
}

/// The Text decoder over a whole value sequence: the bytes, the final sub-mode and
/// the final shift return.
pub open spec fn tdec(vals: Seq<u8>, sub: SubMode, prior: SubMode) -> (Seq<u8>, SubMode, SubMode)
    decreases vals.len(),
{
    if vals.len() == 0 {
        (Seq::empty(), sub, prior)
    } else {
        let st = tdec_step(vals[0], sub, prior);
        let r = tdec(vals.skip(1), st.1, st.2);
        (st.0 + r.0, r.1, r.2)
    }
}

proof fn lemma_tdec_run(vals: Seq<u8>, k: int, sub: SubMode, prior: SubMode)
    requires
        0 <= k <= vals.len(),
    ensures
        tdec_run(vals, k, sub, prior) == tdec(vals.skip(k), sub, prior).0,
    decreases vals.len() - k,
{
    if k < vals.len() {
        let st = tdec_step(vals[k], sub, prior);
        lemma_tdec_run(vals, k + 1, st.1, st.2);
        assert(vals.skip(k).skip(1) =~= vals.skip(k + 1));
        assert(vals.skip(k)[0] == vals[k]);
    } else {
        assert(vals.skip(k) =~= Seq::<u8>::empty());
    }
}

proof fn lemma_tdec_concat(a: Seq<u8>, b: Seq<u8>, sub: SubMode, prior: SubMode)
    ensures
        tdec(a + b, sub, prior) == ({
            let x = tdec(a, sub, prior);
            let y = tdec(b, x.1, x.2);
            (x.0 + y.0, y.1, y.2)
        }),
    decreases a.len(),
{
    if a.len() == 0 {
        assert(a + b =~= b);
        assert(Seq::<u8>::empty() + tdec(b, sub, prior).0 =~= tdec(b, sub, prior).0);
    } else {
        let st = tdec_step(a[0], sub, prior);
        assert((a + b).skip(1) =~= a.skip(1) + b);
        assert((a + b)[0] == a[0]);
        lemma_tdec_concat(a.skip(1), b, st.1, st.2);
        let x = tdec(a.skip(1), st.1, st.2);
        let y = tdec(b, x.1, x.2);
        assert(st.0 + (x.0 + y.0) =~= (st.0 + x.0) + y.0);
    }
}

/// A value `mixed_from` finds stands for the byte it was asked about.
proof fn lemma_mixed_from(c: u8, v: int)
    ensures
        mixed_from(c, v) matches Some(m) ==> (m < 25 || m == 26) && mixed_raw(m) == c,
    decreases 27 - v,
{
    if 0 <= v < 27 && !(v != 25 && mixed_raw(v as u8) == c) {
        lemma_mixed_from(c, v + 1);
    }
}

/// A value `punct_from` finds stands for the byte it was asked about.
proof fn lemma_punct_from(c: u8, v: int)
    ensures
        punct_from(c, v) matches Some(m) ==> m < 29 && punct_raw(m) == c,
    decreases 29 - v,
{
    if 0 <= v < 29 && punct_raw(v as u8) != c {
        lemma_punct_from(c, v + 1);
    }
}

/// A sub-mode the encoder can rest in.
pub open spec fn resting(s: SubMode) -> bool {
    s is Alpha || s is Lower || s is Mixed || s is Punct
}

/// Every value is below 30.
pub open spec fn below30(v: Seq<u8>) -> bool {
    forall|j: int| 0 <= j < v.len() ==> #[trigger] v[j] < 30
}

/// One encoder step, fed to the decoder in the same sub-mode, gives back the byte it
/// consumed (or nothing) and lands in the encoder's next sub-mode.
proof fn lemma_text_step_decodes(data: Seq<u8>, i: int, sub: SubMode, prior: SubMode)
    requires
        0 <= i < data.len(),
        resting(sub),
        text_step(data, i, sub) is Some,
    ensures
        ({
            let st = text_step(data, i, sub)->Some_0;
            let d = tdec(st.0, sub, prior);
            &&& d.0 == (if st.2 { seq![data[i]] } else { Seq::<u8>::empty() })
            &&& d.1 == st.1
            &&& resting(st.1)
            &&& below30(st.0)
        }),
{
    let ch = data[i];
    let st = text_step(data, i, sub)->Some_0;
    lemma_mixed_from(ch, 0);
    lemma_punct_from(ch, 0);
    if text_byte(ch) && !upper_sp(ch) && !lower_sp(ch) && mixed_from(ch, 0) is None {
        lemma_text_byte_classes(ch);
    }
    if i + 1 < data.len() {
        lemma_punct_from(data[i + 1], 0);
    }
    let e = st.0;
    reveal_with_fuel(tdec, 3);
    if e.len() == 2 {
        assert(e.skip(1).skip(1) =~= Seq::<u8>::empty());
        assert(e.skip(1)[0] == e[1]);
    } else {
        assert(e.len() == 1);
        assert(e.skip(1) =~= Seq::<u8>::empty());
    }
    let d = tdec(e, sub, prior);
    assert(d.0 =~= (if st.2 { seq![ch] } else { Seq::<u8>::empty() }));
}

/// Decoding the values the encoder writes for `data[i..]`, starting in the
/// encoder's sub-mode, gives back `data[i..]` and ends in a resting sub-mode.
proof fn lemma_text_run_decodes(data: Seq<u8>, i: int, sub: SubMode, prior: SubMode)
    requires
        0 <= i <= data.len(),
        resting(sub),
        text_run(data, i, sub) is Some,
    ensures
        tdec(text_run(data, i, sub)->Some_0, sub, prior).0 == data.skip(i),
        resting(tdec(text_run(data, i, sub)->Some_0, sub, prior).1),
        below30(text_run(data, i, sub)->Some_0),
    decreases text_measure(data, i, sub),
{
    if i == data.len() {
        assert(data.skip(i) =~= Seq::<u8>::empty());
    } else {
        let st = text_step(data, i, sub)->Some_0;
        let next = if st.2 { i + 1 } else { i };
        lemma_text_step_decodes(data, i, sub, prior);
        let d1 = tdec(st.0, sub, prior);
        lemma_text_run_decodes(data, next, st.1, d1.2);
        let r = text_run(data, next, st.1)->Some_0;
        lemma_tdec_concat(st.0, r, sub, prior);
        if st.2 {
            assert(seq![data[i]] + data.skip(i + 1) =~= data.skip(i));
        } else {
            assert(Seq::<u8>::empty() + data.skip(i) =~= data.skip(i));
        }
        assert forall|j: int| 0 <= j < (st.0 + r).len() implies #[trigger] (st.0 + r)[j] < 30 by {
            if j < st.0.len() {
                assert((st.0 + r)[j] == st.0[j]);
            } else {
                assert((st.0 + r)[j] == r[j - st.0.len()]);
            }
        }
    }
}

/// Pairing values into codewords and splitting them again gives the values back,
/// with the padding value 29 after an odd count.
proof fn lemma_pack30_pairs(v: Seq<u8>)
    requires
        below30(v),
    ensures
        text_pairs(pack30(v)) == (if v.len() % 2 == 0 { v } else { v.push(29u8) }),
        digits_below(pack30(v), 900),
    decreases v.len(),
{
    if v.len() == 0 {
        assert(text_pairs(pack30(v)) =~= v);
    } else if v.len() == 1 {
        let c = (v[0] * 30 + 29) as u32;
        assert(c / 30 == v[0] && c % 30 == 29);
        assert(text_pairs(pack30(v)) =~= v.push(29u8));
    } else {
        let t = v.skip(2);
        assert(below30(t)) by {
            assert forall|j: int| 0 <= j < t.len() implies #[trigger] t[j] < 30 by {
                assert(t[j] == v[j + 2]);
            }
        }
        lemma_pack30_pairs(t);
        let c = (v[0] * 30 + v[1]) as u32;
        assert(v[0] < 30 && v[1] < 30);
        assert(c / 30 == v[0] && c % 30 == v[1]);
        let p = pack30(v);
        assert(p == seq![c] + pack30(t));
        let want = if v.len() % 2 == 0 { v } else { v.push(29u8) };
        let tw = if t.len() % 2 == 0 { t } else { t.push(29u8) };
        assert(want =~= seq![v[0], v[1]] + tw);
        assert(text_pairs(p) =~= want) by {
            assert forall|k: int| 0 <= k < text_pairs(p).len() implies #[trigger] text_pairs(p)[k]
                == want[k] by {
                if k >= 2 {
                    assert(p[k / 2] == pack30(t)[(k - 2) / 2]);
                    assert(text_pairs(pack30(t))[k - 2] == tw[k - 2]);
                }
            }
        }
        assert forall|j: int| 0 <= j < p.len() implies #[trigger] p[j] < 900 by {
            if j > 0 {
                assert(p[j] == pack30(t)[j - 1]);
            }
        }
    }
}

/// Text compaction is lossless: reading back the codewords of a byte run that Text
/// compaction accepts gives the same bytes.
pub proof fn lemma_text_round_trip(data: Seq<u8>)
    requires
        text_run(data, 0, SubMode::Alpha) is Some,
    ensures
        text_dec(pack30(text_run(data, 0, SubMode::Alpha)->Some_0)) == data,
        digits_below(pack30(text_run(data, 0, SubMode::Alpha)->Some_0), 900),
{
    let v = text_run(data, 0, SubMode::Alpha)->Some_0;
    lemma_text_run_decodes(data, 0, SubMode::Alpha, SubMode::Alpha);
    assert(data.skip(0) =~= data);
    lemma_pack30_pairs(v);
    let vals = text_pairs(pack30(v));
    lemma_tdec_run(vals, 0, SubMode::Alpha, SubMode::Alpha);
    assert(vals.skip(0) =~= vals);
    let x = tdec(v, SubMode::Alpha, SubMode::Alpha);
    if v.len() % 2 == 1 {
        lemma_tdec_concat(v, seq![29u8], SubMode::Alpha, SubMode::Alpha);
        reveal_with_fuel(tdec, 2);
        assert(seq![29u8].skip(1) =~= Seq::<u8>::empty());
        assert(tdec(seq![29u8], x.1, x.2).0 =~= Seq::<u8>::empty());
        assert(x.0 + Seq::<u8>::empty() =~= x.0);
        assert(vals =~= v + seq![29u8]);
        assert(tdec(vals, SubMode::Alpha, SubMode::Alpha).0 == data);
    } else {
        assert(vals == v);
        assert(tdec(vals, SubMode::Alpha, SubMode::Alpha).0 == data);
    }
    assert(text_dec(pack30(v)) == tdec_run(vals, 0, SubMode::Alpha, SubMode::Alpha));
}

proof fn lemma_run_end_shift(a: Seq<u32>, b: Seq<u32>, k: int)
    requires
        0 <= k <= b.len(),
    ensures
        run_end(a + b, a.len() + k) == a.len() + run_end(b, k),
    decreases b.len() - k,
{
    if k < b.len() {
        assert((a + b)[a.len() + k] == b[k]);
        if b[k] < 900 {
            lemma_run_end_shift(a, b, k + 1);
        }
    }
}

/// Reading segments from inside a longer stream does not depend on what precedes.
proof fn lemma_segs_from_shift(a: Seq<u32>, b: Seq<u32>, k: int)
    requires
        0 <= k <= b.len(),
    ensures
        segs_from(a + b, a.len() + k) == segs_from(b, k),
    decreases b.len() - k,
{
    let c = a + b;
    let o = a.len() as int;
    if k < b.len() {
        assert(c[o + k] == b[k]);
        let latch = b[k];
        if latch == LATCH_TEXT || latch == LATCH_NUMERIC || latch == LATCH_BYTE
            || latch == LATCH_BYTE_6 {
            lemma_run_end(b, k + 1);
            lemma_run_end_shift(a, b, k + 1);
            let e = run_end(b, k + 1);
            assert(c.subrange(o + k + 1, o + e) =~= b.subrange(k + 1, e));
            lemma_segs_from_shift(a, b, e);
        } else {
            lemma_run_end(b, k);
            lemma_run_end_shift(a, b, k);
            let e = run_end(b, k);
            assert(c.subrange(o + k, o + e) =~= b.subrange(k, e));
            if e != k {
                lemma_segs_from_shift(a, b, e);
            }
        }
    }
}

/// Each accepted segment's codewords open with a latch, and the rest are content.
proof fn lemma_encode_one_shape(seg: Segment)
    requires
        encode_one(seg) is Ok,
    ensures
        encode_one(seg)->Ok_0.len() >= 1,
        encode_one(seg)->Ok_0[0] >= 900,
        forall|k: int| 1 <= k < encode_one(seg)->Ok_0.len() ==> #[trigger] encode_one(seg)->Ok_0[k]
            < 900,
{
    let d = seg.data@;
    let e = encode_one(seg)->Ok_0;
    let body = if seg.mode is Numeric {
        num_cws(d)
    } else if seg.mode is Byte {
        byte_cws(d)
    } else {
        pack30(text_run(d, 0, SubMode::Alpha)->Some_0)
    };
    assert(e =~= seq![e[0]] + body);
    if seg.mode is Numeric {
        lemma_num_cws_below(d);
    } else if seg.mode is Byte {
        lemma_byte_cws_shape(d);
    } else {
        lemma_text_round_trip(d);
    }
    assert forall|k: int| 1 <= k < e.len() implies #[trigger] e[k] < 900 by {
        assert(e[k] == body[k - 1]);
    }
}

/// The segments read from an accepted segment list's stream are those segments.
proof fn lemma_segs_from_encoded(segs: Seq<Segment>)
    requires
        encode_spec(segs) is Ok,
    ensures
        segs_from(encode_spec(segs)->Ok_0, 0) == Ok::<Seq<(Mode, Seq<u8>)>, Error>(seg_view(segs)),
        encode_spec(segs)->Ok_0.len() == 0 || encode_spec(segs)->Ok_0[0] >= 900,
    decreases segs.len(),
{
    if segs.len() == 0 {
        assert(seg_view(segs) =~= Seq::<(Mode, Seq<u8>)>::empty());
    } else {
        let seg = segs[0];
        let tail = segs.skip(1);
        lemma_segs_from_encoded(tail);
        let e = encode_one(seg)->Ok_0;
        let b = encode_spec(tail)->Ok_0;
        let st = e + b;
        assert(encode_spec(segs)->Ok_0 == st);
        lemma_encode_one_shape(seg);
        let d = seg.data@;
        // the content of the first segment runs up to the next latch
        assert forall|k: int| 1 <= k < e.len() implies #[trigger] st[k] < 900 by {
            assert(st[k] == e[k]);
        }
        assert(run_end(st, 1) == e.len()) by {
            lemma_run_end_full(e, 1);
            lemma_run_end_prefix(e, b, 1);
        }
        lemma_segs_from_shift(e, b, 0);
        assert(st.subrange(1, e.len() as int) =~= e.subrange(1, e.len() as int));
        let body = e.subrange(1, e.len() as int);
        if seg.mode is Numeric {
            assert(body =~= num_cws(d));
            lemma_numeric_round_trip(d);
        } else if seg.mode is Byte {
            assert(body =~= byte_cws(d));
            lemma_byte_round_trip(d);
        } else {
            assert(body =~= pack30(text_run(d, 0, SubMode::Alpha)->Some_0));
            lemma_text_round_trip(d);
        }
        assert(st[0] == e[0]);
        assert(seg_view(segs) =~= seq![(seg.mode, d)] + seg_view(tail));
    }
}

/// A run that ends inside `a` ends at the same place in `a + b` when `b` opens
/// with a latch.
proof fn lemma_run_end_prefix(a: Seq<u32>, b: Seq<u32>, j: int)
    requires
        0 <= j <= a.len(),
        run_end(a, j) == a.len() ==> (b.len() == 0 || b[0] >= 900),
    ensures
        run_end(a + b, j) == run_end(a, j),
    decreases a.len() - j,
{
    if j < a.len() {
        assert((a + b)[j] == a[j]);
        if a[j] < 900 {
            lemma_run_end_prefix(a, b, j + 1);
        }
    } else {
        if b.len() > 0 {
            assert((a + b)[j] == b[0]);
        }
    }
}

/// Encoding is lossless: whatever segment list the encoder accepts, its stream read
/// back behind the symbol-length descriptor gives the same segments, boundaries
/// included.
pub proof fn lemma_segments_round_trip(segs: Seq<Segment>)
    requires
        encode_spec(segs) is Ok,
        encode_spec(segs)->Ok_0.len() + 1 <= u32::MAX,
    ensures
        decode_spec(seq![(encode_spec(segs)->Ok_0.len() + 1) as u32] + encode_spec(segs)->Ok_0)
            == Ok::<Seq<(Mode, Seq<u8>)>, Error>(seg_view(segs)),
{
    let st = encode_spec(segs)->Ok_0;
    lemma_segs_from_encoded(segs);
    let n = (st.len() + 1) as u32;
    let data = seq![n] + st;
    assert(data.subrange(1, n as int) =~= st);
}

} // verus!
