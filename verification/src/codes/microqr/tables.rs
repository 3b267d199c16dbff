//! Static Micro QR specification tables (ISO/IEC 18004): codeword/EC counts,
//! mode and character-count field widths, terminator lengths, and the 15-bit
//! format-information BCH code with the Micro QR mask.
use vstd::prelude::*;
use crate::segment::Mode;
use super::{MicroEcLevel, MicroVersion, version_number};

verus! {

/// Data/EC codeword split for one (version, EC level).
#[derive(Debug, Clone, Copy)]
pub struct MicroParams {
    /// Number of data codewords (the final one is 4 bits for M1/M3).
    pub data_cw: usize,
    /// Number of error-correction codewords.
    pub ec_cw: usize,
}

/// The (data, EC) codeword counts of the supported (version, level) pairs.
pub open spec fn ec_table(version: MicroVersion, ec: MicroEcLevel) -> Option<(int, int)> {
    match (version, ec) {
        (MicroVersion::M1, MicroEcLevel::Detection) => Some((3, 2)),
        (MicroVersion::M2, MicroEcLevel::L) => Some((5, 5)),
        (MicroVersion::M2, MicroEcLevel::M) => Some((4, 6)),
        (MicroVersion::M3, MicroEcLevel::L) => Some((11, 6)),
        (MicroVersion::M3, MicroEcLevel::M) => Some((9, 8)),
        (MicroVersion::M4, MicroEcLevel::L) => Some((16, 8)),
        (MicroVersion::M4, MicroEcLevel::M) => Some((14, 10)),
        (MicroVersion::M4, MicroEcLevel::Q) => Some((10, 14)),
        _ => None,
    }
}

/// The codeword layout for a Micro QR (version, EC level), or `None` for an
/// unsupported combination.
pub fn ec_params(version: MicroVersion, ec: MicroEcLevel) -> (r: Option<MicroParams>)
    ensures
        r is Some <==> ec_table(version, ec) is Some,
        r matches Some(p) ==> ec_table(version, ec) == Some((p.data_cw as int, p.ec_cw as int)),
{
    let (data_cw, ec_cw): (usize, usize) = match (version, ec) {
        (MicroVersion::M1, MicroEcLevel::Detection) => (3, 2),
        (MicroVersion::M2, MicroEcLevel::L) => (5, 5),
        (MicroVersion::M2, MicroEcLevel::M) => (4, 6),
        (MicroVersion::M3, MicroEcLevel::L) => (11, 6),
        (MicroVersion::M3, MicroEcLevel::M) => (9, 8),
        (MicroVersion::M4, MicroEcLevel::L) => (16, 8),
        (MicroVersion::M4, MicroEcLevel::M) => (14, 10),
        (MicroVersion::M4, MicroEcLevel::Q) => (10, 14),
        _ => {
            return None;
        },
    };
    Some(MicroParams { data_cw, ec_cw })
}

/// The data codeword count of a supported (version, level).
pub open spec fn data_cw_of(version: MicroVersion, ec: MicroEcLevel) -> int {
    match ec_table(version, ec) {
        Some((d, _e)) => d,
        None => 0,
    }
}

/// Whether the final data codeword of this version is only 4 bits (M1 and M3).
pub fn has_short_final_codeword(version: MicroVersion) -> (r: bool)
    ensures
        r == (version == MicroVersion::M1 || version == MicroVersion::M3),
{
    matches!(version, MicroVersion::M1 | MicroVersion::M3)
}

/// Number of usable data bits (content + terminator + padding) for a version/level.
pub fn data_bit_capacity(version: MicroVersion, ec: MicroEcLevel) -> (r: Option<usize>)
    ensures
        r is Some <==> ec_table(version, ec) is Some,
        r matches Some(n) ==> {
            let d = data_cw_of(version, ec);
            n == (if version == MicroVersion::M1 || version == MicroVersion::M3 { (d - 1) * 8 + 4 } else { d * 8 })
        },
{
    let p = match ec_params(version, ec) {
        Some(p) => p,
        None => {
            return None;
        },
    };
    Some(if has_short_final_codeword(version) { (p.data_cw - 1) * 8 + 4 } else { p.data_cw * 8 })
}

/// Total number of data-region modules (data + EC bits) for a version.
pub fn data_module_count(version: MicroVersion) -> (n: usize)
    ensures
        n == (match version {
            MicroVersion::M1 => 36int,
            MicroVersion::M2 => 80,
            MicroVersion::M3 => 132,
            MicroVersion::M4 => 192,
        }),
{
    match version {
        MicroVersion::M1 => 36,
        MicroVersion::M2 => 80,
        MicroVersion::M3 => 132,
        MicroVersion::M4 => 192,
    }
}

/// The 3-bit symbol number S of each supported (version, level), in table order.
pub open spec fn symbol_table(s: int) -> (MicroVersion, MicroEcLevel) {
    if s == 0 { (MicroVersion::M1, MicroEcLevel::Detection) }
    else if s == 1 { (MicroVersion::M2, MicroEcLevel::L) }
    else if s == 2 { (MicroVersion::M2, MicroEcLevel::M) }
    else if s == 3 { (MicroVersion::M3, MicroEcLevel::L) }
    else if s == 4 { (MicroVersion::M3, MicroEcLevel::M) }
    else if s == 5 { (MicroVersion::M4, MicroEcLevel::L) }
    else if s == 6 { (MicroVersion::M4, MicroEcLevel::M) }
    else { (MicroVersion::M4, MicroEcLevel::Q) }
}

/// The 3-bit "symbol number" S encoding version+EC in the format information.
pub fn symbol_number(version: MicroVersion, ec: MicroEcLevel) -> (r: Option<u8>)
    ensures
        r is Some <==> ec_table(version, ec) is Some,
        r matches Some(s) ==> s < 8 && symbol_table(s as int) == (version, ec),
{
    let s: u8 = match (version, ec) {
        (MicroVersion::M1, MicroEcLevel::Detection) => 0,
        (MicroVersion::M2, MicroEcLevel::L) => 1,
        (MicroVersion::M2, MicroEcLevel::M) => 2,
        (MicroVersion::M3, MicroEcLevel::L) => 3,
        (MicroVersion::M3, MicroEcLevel::M) => 4,
        (MicroVersion::M4, MicroEcLevel::L) => 5,
        (MicroVersion::M4, MicroEcLevel::M) => 6,
        (MicroVersion::M4, MicroEcLevel::Q) => 7,
        _ => {
            return None;
        },
    };
    Some(s)
}

/// Inverse of [`symbol_number`].
pub fn version_ec_from_symbol_number(s: u8) -> (r: Option<(MicroVersion, MicroEcLevel)>)
    ensures
        r is Some <==> s < 8,
        r matches Some(p) ==> p == symbol_table(s as int) && ec_table(p.0, p.1) is Some,
{
    match s {
        0 => Some((MicroVersion::M1, MicroEcLevel::Detection)),
        1 => Some((MicroVersion::M2, MicroEcLevel::L)),
        2 => Some((MicroVersion::M2, MicroEcLevel::M)),
        3 => Some((MicroVersion::M3, MicroEcLevel::L)),
        4 => Some((MicroVersion::M3, MicroEcLevel::M)),
        5 => Some((MicroVersion::M4, MicroEcLevel::L)),
        6 => Some((MicroVersion::M4, MicroEcLevel::M)),
        7 => Some((MicroVersion::M4, MicroEcLevel::Q)),
        _ => None,
    }
}

/// Symbol numbers and (version, level) pairs are inverse to each other.
pub proof fn lemma_symbol_number_bijection(s: int)
    requires
        0 <= s < 8,
    ensures
        ec_table(symbol_table(s).0, symbol_table(s).1) is Some,
{
}

/// Number of bits in the mode indicator for a version (M1→0 … M4→3).
pub fn mode_indicator_bits(version: MicroVersion) -> (n: usize)
    ensures
        n == version_number(version) - 1,
{
    version.number() as usize - 1
}

/// The Micro QR mode indicator value of each data mode.
pub open spec fn micro_mode_spec(mode: Mode) -> Option<u8> {
    match mode {
        Mode::Numeric => Some(0u8),
        Mode::Alphanumeric => Some(1u8),
        Mode::Byte => Some(2u8),
        Mode::Kanji => Some(3u8),
        Mode::Eci(_) => None,
    }
}

/// The Micro QR mode indicator value for a data mode.
pub fn micro_mode_value(mode: &Mode) -> (r: Option<u8>)
    ensures
        r == micro_mode_spec(*mode),
{
    match mode {
        Mode::Numeric => Some(0),
        Mode::Alphanumeric => Some(1),
        Mode::Byte => Some(2),
        Mode::Kanji => Some(3),
        Mode::Eci(_) => None,
    }
}

/// Recover a data mode from a Micro QR mode indicator value.
pub fn mode_from_micro_value(v: u8) -> (r: Option<Mode>)
    ensures
        r is Some <==> v < 4,
        r matches Some(m) ==> micro_mode_spec(m) == Some(v),
{
    match v {
        0 => Some(Mode::Numeric),
        1 => Some(Mode::Alphanumeric),
        2 => Some(Mode::Byte),
        3 => Some(Mode::Kanji),
        _ => None,
    }
}

/// Character-count field width of each mode at each version (0: not permitted).
pub open spec fn char_count_table(version: MicroVersion, mode: Mode) -> int {
    let v = version_number(version) - 1;
    match mode {
        Mode::Numeric => 3 + v,
        Mode::Alphanumeric => if v == 0 { 0 } else { 2 + v },
        Mode::Byte => if v <= 1 { 0 } else { 2 + v },
        Mode::Kanji => if v <= 1 { 0 } else { 1 + v },
        Mode::Eci(_) => 0,
    }
}

/// Character-count indicator width for a mode at a version, or `None` if the mode
/// is not permitted at that version.
pub fn char_count_bits(version: MicroVersion, mode: &Mode) -> (r: Option<usize>)
    ensures
        r is Some <==> char_count_table(version, *mode) > 0,
        r matches Some(n) ==> n == char_count_table(version, *mode),
{
    let v: usize = match version {
        MicroVersion::M1 => 0,
        MicroVersion::M2 => 1,
        MicroVersion::M3 => 2,
        MicroVersion::M4 => 3,
    };
    let bits: usize = match mode {
        Mode::Numeric => 3 + v,
        Mode::Alphanumeric => if v == 0 { 0 } else { 2 + v },
        Mode::Byte => if v <= 1 { 0 } else { 2 + v },
        Mode::Kanji => if v <= 1 { 0 } else { 1 + v },
        Mode::Eci(_) => {
            return None;
        },
    };
    if bits == 0 { None } else { Some(bits) }
}

/// The end-of-message terminator length for a version (M1→3 … M4→9).
pub fn terminator_bits(version: MicroVersion) -> (n: usize)
    ensures
        n == 2 * version_number(version) + 1,
{
    2 * version.number() as usize + 1
}

/// One step of BCH(15,5) long division by the generator `0x537`.
pub open spec fn bch_step(rem: u16) -> u16 {
    (rem << 1u16) ^ (if (rem >> 9u16) & 1u16 == 1u16 { 0x537u16 } else { 0u16 })
}

/// `k` division steps.
pub open spec fn bch_steps(rem: u16, k: nat) -> u16
    decreases k,
{
    if k == 0 { rem } else { bch_step(bch_steps(rem, (k - 1) as nat)) }
}

/// The 15-bit Micro QR format code: five data bits `(S << 2) | mask`, ten BCH check
/// bits, the whole word XOR-masked with `0x4445`.
pub open spec fn format_spec(symbol_number: u8, mask: u8) -> u16 {
    let data = ((((symbol_number & 7u8) as u16) << 2u16) | ((mask & 3u8) as u16)) as u16;
    (((data << 10u16) | (bch_steps(data, 10) & 0x3ffu16)) ^ 0x4445u16) as u16
}

/// Compute the 15-bit Micro QR format code for a symbol number and mask.
pub fn format_bits(symbol_number: u8, mask: u8) -> (f: u16)
    ensures
        f == format_spec(symbol_number, mask),
{
    let data: u16 = (((symbol_number & 0x7) as u16) << 2) | ((mask & 0x3) as u16);
    let mut rem: u16 = data;
    let mut k: usize = 0;
    while k < 10
        invariant
            k <= 10,
            rem == bch_steps(data, k as nat),
        decreases 10 - k,
    {
        let tap: u16 = if (rem >> 9) & 1 == 1 { 0x537 } else { 0 };
        rem = (rem << 1) ^ tap;
        k = k + 1;
    }
    ((data << 10) | (rem & 0x3FF)) ^ 0x4445
}

/// Number of set bits of `x`.
pub open spec fn popcount(x: int) -> int
    decreases x,
{
    if x <= 0 { 0 } else { x % 2 + popcount(x / 2) }
}

/// Number of set bits of a 16-bit word.
fn count_ones16(x: u16) -> (n: u32)
    ensures
        n == popcount(x as int),
        n <= x,
{
    let mut v: u16 = x;
    let mut n: u32 = 0;
    while v > 0
        invariant
            n + popcount(v as int) == popcount(x as int),
            n + v <= x,
        decreases v,
    {
        n = n + (v % 2) as u32;
        v = v / 2;
    }
    n
}

/// Hamming distance between two 16-bit words.
pub open spec fn hamming16(a: u16, b: u16) -> int {
    popcount((a ^ b) as int)
}

/// Decode a 15-bit Micro QR format code to `(symbol_number, mask)` by nearest-codeword
/// search over the 32 valid words (Hamming distance ≤ 3). Ties go to the first word
/// in (symbol number, mask) order.
pub fn decode_format(raw: u16) -> (r: Option<(u8, u8)>)
    ensures
        r matches Some((s, m)) ==> s < 8 && m < 4 && hamming16(format_spec(s, m), raw) <= 3
            && forall|s2: u8, m2: u8| s2 < 8 && m2 < 4 ==> hamming16(format_spec(s, m), raw) <= hamming16(format_spec(s2, m2), raw),
        r is None ==> forall|s2: u8, m2: u8| s2 < 8 && m2 < 4 ==> hamming16(format_spec(s2, m2), raw) > 3,
{
    let mut best: Option<(u8, u8)> = None;
    let mut best_dist: u32 = u32::MAX;
    let mut s: u8 = 0;
    while s < 8
        invariant
            s <= 8,
            best is None ==> best_dist == u32::MAX && s == 0,
            best matches Some((bs, bm)) ==> bs < 8 && bm < 4 && best_dist == hamming16(format_spec(bs, bm), raw),
            forall|s2: u8, m2: u8| s2 < s && m2 < 4 ==> best_dist <= hamming16(format_spec(s2, m2), raw),
        decreases 8 - s,
    {
        let mut m: u8 = 0;
        while m < 4
            invariant
                s < 8,
                m <= 4,
                best is None ==> best_dist == u32::MAX && s == 0 && m == 0,
                best matches Some((bs, bm)) ==> bs < 8 && bm < 4 && best_dist == hamming16(format_spec(bs, bm), raw),
                forall|s2: u8, m2: u8| s2 < s && m2 < 4 ==> best_dist <= hamming16(format_spec(s2, m2), raw),
                forall|m2: u8| m2 < m ==> best_dist <= hamming16(format_spec(s, m2), raw),
            decreases 4 - m,
        {
            let candidate = format_bits(s, m);
            let dist = count_ones16(candidate ^ raw);
            if dist < best_dist {
                best_dist = dist;
                best = Some((s, m));
            }
            m = m + 1;
        }
        s = s + 1;
    }
    if best_dist <= 3 { best } else { None }
}

} // verus!
