//! Micro QR decoding: data-region bits → corrected content bits → segments.
use vstd::prelude::*;
use crate::codes::microqr::tables::char_count_table;
use crate::codes::hanxin::gf::GaloisField;
use crate::codes::microqr::tables::{char_count_bits, ec_params, ec_table, has_short_final_codeword, mode_from_micro_value, mode_indicator_bits};
use crate::codes::microqr::matrix::Canvas;
use crate::codes::microqr::tables::{data_module_count, version_ec_from_symbol_number};
use crate::codes::microqr::{MicroEcLevel, MicroMask, MicroQrMeta, MicroVersion, version_number};
use crate::output::{BitMatrix, Encoding};
use crate::symbol::{Symbol, SymbolMeta};
use crate::symbology::Symbology;
use crate::error::Error;
use crate::segment::{Mode, Segment};
use vstd::arithmetic::div_mod::lemma_div_denominator;
use vstd::arithmetic::div_mod::lemma_fundamental_div_mod_converse;
use crate::codes::microqr::encode::kanji_value_spec;

verus! {

/// The `n`-bit number at `pos` of `bits`, most significant bit first.
pub open spec fn bits_val(bits: Seq<bool>, pos: int, n: nat) -> int
    decreases n,
{
    if n == 0 {
        0
    } else {
        2 * bits_val(bits, pos, (n - 1) as nat) + if bits[pos + n - 1] { 1int } else { 0int }
    }
}

/// `2^n`.
pub open spec fn p2(n: nat) -> nat
    decreases n,
{
    if n == 0 {
        1
    } else {
        2 * p2((n - 1) as nat)
    }
}

/// Read `n` (≤ 16) bits at `pos` as a number.
pub fn read_bits(bits: &[bool], pos: usize, n: usize) -> (r: u32)
    requires
        n <= 16,
        pos + n <= bits@.len(),
    ensures
        r == bits_val(bits@, pos as int, n as nat),
        r < p2(n as nat),
        n <= 4 ==> r < 16,
        n <= 8 ==> r < 256,
        n <= 10 ==> r < 1024,
        n <= 13 ==> r < 8192,
{
    let len = bits.len();
    let mut v: u32 = 0;
    let mut k: usize = 0;
    while k < n
        invariant
            len == bits@.len(),
            k <= n,
            n <= 16,
            pos + n <= bits@.len(),
            v == bits_val(bits@, pos as int, k as nat),
            v < p2(k as nat),
            p2(k as nat) <= 65536,
        decreases n - k,
    {
        proof {
            assert(p2((k + 1) as nat) == 2 * p2(k as nat));
            lemma_p2_le16((k + 1) as nat);
        }
        v = v * 2 + (if bits[pos + k] { 1u32 } else { 0u32 });
        k = k + 1;
    }
    proof {
        assert(p2(4) == 16 && p2(8) == 256 && p2(10) == 1024 && p2(13) == 8192) by {
            reveal_with_fuel(p2, 14);
        }
        if n <= 4 {
            lemma_p2_mono(n as nat, 4);
        }
        if n <= 8 {
            lemma_p2_mono(n as nat, 8);
        }
        if n <= 10 {
            lemma_p2_mono(n as nat, 10);
        }
        if n <= 13 {
            lemma_p2_mono(n as nat, 13);
        }
    }
    v
}

/// `2^n` grows with `n`.
proof fn lemma_p2_mono(n: nat, m: nat)
    requires
        n <= m,
    ensures
        p2(n) <= p2(m),
    decreases m - n,
{
    if n < m {
        lemma_p2_mono(n, (m - 1) as nat);
    }
}

/// `2^n ≤ 2^16` for `n ≤ 16`.
proof fn lemma_p2_le16(n: nat)
    requires
        n <= 16,
    ensures
        p2(n) <= 65536,
    decreases 16 - n,
{
    if n < 16 {
        lemma_p2_le16(n + 1);
    } else {
        reveal_with_fuel(p2, 17);
    }
}

/// Unpack the data-region bits into Reed–Solomon codewords (M1/M3 end their data on
/// a 4-bit codeword, stored in the high nibble), correct them over GF(256), and
/// return the corrected content bits.
pub fn deinterleave_and_correct(bits: &[bool], version: MicroVersion, ec: MicroEcLevel) -> (r: Result<Vec<bool>, Error>)
    requires
        ec_table(version, ec) matches Some((d, e)) ==> bits@.len() >= 8 * (d + e) - (if has_short_spec(version) {
            4int
        } else {
            0int
        }),
    ensures
        ec_table(version, ec) is None ==> r == Err::<Vec<bool>, Error>(Error::Undecodable),
        r matches Err(e) ==> e == Error::Undecodable || e == Error::ErrorCorrectionFailed,
        r matches Ok(out) ==> ec_table(version, ec) matches Some((d, e)) && out@.len() == 8 * d - (if has_short_spec(
            version,
        ) { 4int } else { 0int }),
{
    let params = match ec_params(version, ec) {
        Some(p) => p,
        None => {
            return Err(Error::Undecodable);
        },
    };
    let short = has_short_final_codeword(version);
    let data_cw = params.data_cw;
    let ec_cw = params.ec_cw;
    assert(data_cw >= 1 && data_cw <= 16 && ec_cw <= 14);
    let full_data = if short { data_cw - 1 } else { data_cw };
    let mut block: Vec<u8> = Vec::new();
    let mut pos: usize = 0;
    let mut i: usize = 0;
    while i < full_data
        invariant
            i <= full_data,
            full_data <= data_cw,
            data_cw <= 16,
            ec_cw <= 14,
            pos == 8 * i,
            block@.len() == i,
            short == has_short_spec(version),
            full_data == (if short { data_cw - 1 } else { data_cw as int }),
            bits@.len() >= 8 * (data_cw + ec_cw) - (if short { 4int } else { 0int }),
        decreases full_data - i,
    {
        block.push(read_bits(bits, pos, 8) as u8);
        pos = pos + 8;
        i = i + 1;
    }
    if short {
        let nib = read_bits(bits, pos, 4) as u8;
        block.push(nib * 16);
        pos = pos + 4;
    }
    let mut j: usize = 0;
    while j < ec_cw
        invariant
            j <= ec_cw,
            data_cw <= 16,
            ec_cw <= 14,
            pos == 8 * data_cw + 8 * j - (if short { 4int } else { 0int }),
            block@.len() == data_cw + j,
            short == has_short_spec(version),
            bits@.len() >= 8 * (data_cw + ec_cw) - (if short { 4int } else { 0int }),
        decreases ec_cw - j,
    {
        block.push(read_bits(bits, pos, 8) as u8);
        pos = pos + 8;
        j = j + 1;
    }
    let gf = qr_field();
    proof {
        gf.lemma_wf();
    }
    let corrected = match gf.rs_decode(block.as_slice(), ec_cw, 0) {
        Some(c) => c,
        None => {
            return Err(Error::ErrorCorrectionFailed);
        },
    };
    // Rebuild the content bits from the corrected data codewords.
    let mut out: Vec<bool> = Vec::new();
    let mut q: usize = 0;
    while q < full_data
        invariant
            q <= full_data,
            full_data <= data_cw,
            corrected@.len() == data_cw + ec_cw,
            out@.len() == 8 * q,
        decreases full_data - q,
    {
        let b = corrected[q];
        let mut k: usize = 8;
        while k > 0
            invariant
                k <= 8,
                out@.len() == 8 * q + (8 - k),
            decreases k,
        {
            out.push((b >> ((k - 1) as u8)) & 1 != 0);
            k = k - 1;
        }
        q = q + 1;
    }
    if short {
        let last = corrected[data_cw - 1];
        let mut k: usize = 8;
        while k > 4
            invariant
                4 <= k <= 8,
                out@.len() == 8 * full_data + (8 - k),
            decreases k,
        {
            out.push((last >> ((k - 1) as u8)) & 1 != 0);
            k = k - 1;
        }
    }
    Ok(out)
}

/// M1 and M3 end their data on a 4-bit codeword.
pub open spec fn has_short_spec(version: MicroVersion) -> bool {
    version == MicroVersion::M1 || version == MicroVersion::M3
}

/// The QR Reed–Solomon field: GF(256) over `x^8 + x^4 + x^3 + x^2 + 1`.
fn qr_field() -> (f: GaloisField)
    ensures
        f.wf(),
        f.ord() == 255,
{
    assert(256usize & ((256usize - 1) as usize) == 0) by (bit_vector);
    assert(0x11du16 & (256usize as u16) != 0) by (bit_vector);
    GaloisField::new(0x11d, 256)
}

/// The alphanumeric character of value `v` (0–44).
pub open spec fn alnum_spec(v: int) -> Option<u8> {
    if 0 <= v <= 9 {
        Some((48 + v) as u8)
    } else if 10 <= v <= 35 {
        Some((65 + v - 10) as u8)
    } else if v == 36 {
        Some(32u8)
    } else if v == 37 {
        Some(36u8)
    } else if v == 38 {
        Some(37u8)
    } else if v == 39 {
        Some(42u8)
    } else if v == 40 {
        Some(43u8)
    } else if v == 41 {
        Some(45u8)
    } else if v == 42 {
        Some(46u8)
    } else if v == 43 {
        Some(47u8)
    } else if v == 44 {
        Some(58u8)
    } else {
        None
    }
}

/// The alphanumeric character of value `v`.
pub fn alnum_char(v: u32) -> (r: Option<u8>)
    ensures
        r == alnum_spec(v as int),
{
    if v <= 9 {
        Some(48 + v as u8)
    } else if v <= 35 {
        Some(65 + (v - 10) as u8)
    } else if v == 36 {
        Some(32)
    } else if v == 37 {
        Some(36)
    } else if v == 38 {
        Some(37)
    } else if v == 39 {
        Some(42)
    } else if v == 40 {
        Some(43)
    } else if v == 41 {
        Some(45)
    } else if v == 42 {
        Some(46)
    } else if v == 43 {
        Some(47)
    } else if v == 44 {
        Some(58)
    } else {
        None
    }
}

/// The Shift-JIS byte pair of a 13-bit QR Kanji value.
pub open spec fn kanji_spec(v: int) -> (u8, u8) {
    let base = (v / 0xC0) * 256 + v % 0xC0;
    let code = if base < 0x1F00 { base + 0x8140 } else { base + 0xC140 };
    ((code / 256) as u8, (code % 256) as u8)
}

/// The Shift-JIS byte pair of a 13-bit QR Kanji value.
pub fn kanji_bytes(v: u32) -> (r: (u8, u8))
    requires
        v < 8192,
    ensures
        r == kanji_spec(v as int),
{
    let base = (v / 0xC0) * 256 + v % 0xC0;
    let code = if base < 0x1F00 { base + 0x8140 } else { base + 0xC140 };
    ((code / 256) as u8, (code % 256) as u8)
}

/// Kanji decoding inverts the encoder's Kanji mapping: a Shift-JIS pair in the
/// Kanji ranges whose second byte is a trail byte (`0x40` or above) comes back
/// from its 13-bit value as the same pair, lead byte first.
pub proof fn lemma_kanji_round_trip(hi: u8, lo: u8)
    requires
        kanji_value_spec(hi, lo) is Some,
        lo >= 0x40,
    ensures
        kanji_value_spec(hi, lo)->0 < 8192,
        kanji_spec(kanji_value_spec(hi, lo)->0 as int) == (hi, lo),
{
    let code = hi as int * 256 + lo as int;
    let low_range = code <= 0x9FFC;
    let base = if low_range { code - 0x8140 } else { code - 0xC140 };
    let q = if low_range { hi as int - 0x81 } else { hi as int - 0xC1 };
    let r = lo as int - 0x40;
    assert(base == q * 256 + r);
    lemma_fundamental_div_mod_converse(base, 256, q, r);
    let v = q * 0xC0 + r;
    assert(0 <= q < 43);
    assert(v < 8192);
    assert(kanji_value_spec(hi, lo)->0 == v);
    lemma_fundamental_div_mod_converse(v, 0xC0, q, r);
    assert((v / 0xC0) * 256 + v % 0xC0 == base);
    if low_range {
        assert(base < 0x1F00);
    } else {
        assert(base >= 0x1F00);
    }
    lemma_fundamental_div_mod_converse(code, 256, hi as int, lo as int);
}

/// `10^n`.
pub open spec fn p10(n: nat) -> nat
    decreases n,
{
    if n == 0 {
        1
    } else {
        10 * p10((n - 1) as nat)
    }
}

proof fn lemma_p10_pos(n: nat)
    ensures
        p10(n) >= 1,
    decreases n,
{
    if n > 0 {
        lemma_p10_pos((n - 1) as nat);
    }
}

/// The number of decimal digits of `v` (below 10000).
pub open spec fn decimal_len(v: u32) -> nat {
    if v >= 1000 {
        4
    } else if v >= 100 {
        3
    } else if v >= 10 {
        2
    } else {
        1
    }
}

/// The ASCII decimal digits of `v`, zero-padded on the left to at least `width`.
pub open spec fn decimal_padded(v: u32, width: nat) -> Seq<u8> {
    let n = if decimal_len(v) < width { width } else { decimal_len(v) };
    Seq::new(n, |i: int| (48 + (v as nat / p10((n - 1 - i) as nat)) % 10) as u8)
}

/// Append the decimal digits of `v`, zero-padded to at least `width`.
fn push_decimal(out: &mut Vec<u8>, v: u32, width: usize)
    requires
        width <= 4,
        v < 10000,
    ensures
        final(out)@ == old(out)@ + decimal_padded(v, width as nat),
{
    let n: usize = if v >= 1000 { 4 } else if v >= 100 { 3 } else if v >= 10 { 2 } else { 1 };
    let n = if n < width { width } else { n };
    let ghost target = decimal_padded(v, width as nat);
    assert(target.len() == n);
    let ghost start = out@;
    let mut k: usize = n;
    while k > 0
        invariant
            k <= n,
            n <= 4,
            target.len() == n,
            target == decimal_padded(v, width as nat),
            out@ == start + target.subrange(0, n - k),
        decreases k,
    {
        let mut d = v;
        let mut j: usize = 1;
        assert(p10(0) == 1);
        assert(v as nat / p10(0) == v as nat);
        while j < k
            invariant
                1 <= j <= k,
                d == v as nat / p10((j - 1) as nat),
            decreases k - j,
        {
            proof {
                lemma_p10_pos((j - 1) as nat);
                lemma_div_denominator(v as int, p10((j - 1) as nat) as int, 10);
                assert(p10(j as nat) == 10 * p10((j - 1) as nat));
                assert(p10((j - 1) as nat) * 10 == 10 * p10((j - 1) as nat)) by (nonlinear_arith);
            }
            d = d / 10;
            j = j + 1;
        }
        out.push(48 + (d % 10) as u8);
        k = k - 1;
        proof {
            assert(target[n - k - 1] == (48 + (v as nat / p10(k as nat)) % 10) as u8);
            assert(out@ =~= start + target.subrange(0, n - k));
        }
    }
    assert(target.subrange(0, n as int) =~= target);
}

/// Segments a Micro QR symbol carries: numeric, alphanumeric, byte or Kanji runs.
pub open spec fn micro_segs(segs: Seq<Segment>) -> bool {
    forall|k: int| 0 <= k < segs.len() ==> !(#[trigger] segs[k].mode is Eci)
}

/// The data mode a Micro QR mode indicator value stands for.
pub open spec fn mode_of_value(v: u8) -> Option<Mode> {
    if v == 0 {
        Some(Mode::Numeric)
    } else if v == 1 {
        Some(Mode::Alphanumeric)
    } else if v == 2 {
        Some(Mode::Byte)
    } else if v == 3 {
        Some(Mode::Kanji)
    } else {
        None
    }
}

/// A numeric payload of `count` digits at `pos`: groups of three in 10 bits, a final
/// pair in 7, a final digit in 4. The digits and the position after them, or `None`
/// when the bits run out.
pub open spec fn num_payload(c: Seq<bool>, pos: int, count: int) -> Option<(Seq<u8>, int)>
    decreases count,
{
    if count >= 3 {
        if c.len() - pos < 10 {
            None
        } else {
            match num_payload(c, pos + 10, count - 3) {
                Some((d, p)) => Some((decimal_padded(bits_val(c, pos, 10) as u32, 3) + d, p)),
                None => None,
            }
        }
    } else if count == 2 {
        if c.len() - pos < 7 {
            None
        } else {
            Some((decimal_padded(bits_val(c, pos, 7) as u32, 2), pos + 7))
        }
    } else if count == 1 {
        if c.len() - pos < 4 {
            None
        } else {
            Some((seq![(48 + bits_val(c, pos, 4)) as u8], pos + 4))
        }
    } else {
        Some((Seq::empty(), pos))
    }
}

/// An alphanumeric payload of `count` characters at `pos`: pairs in 11 bits, a final
/// one in 6; `None` when the bits run out or a value is no character.
pub open spec fn alnum_payload(c: Seq<bool>, pos: int, count: int) -> Option<(Seq<u8>, int)>
    decreases count,
{
    if count >= 2 {
        if c.len() - pos < 11 {
            None
        } else {
            let v = bits_val(c, pos, 11);
            match (alnum_spec(v / 45), alnum_spec(v % 45)) {
                (Some(a), Some(b)) => match alnum_payload(c, pos + 11, count - 2) {
                    Some((d, p)) => Some((seq![a, b] + d, p)),
                    None => None,
                },
                _ => None,
            }
        }
    } else if count == 1 {
        if c.len() - pos < 6 {
            None
        } else {
            match alnum_spec(bits_val(c, pos, 6)) {
                Some(a) => Some((seq![a], pos + 6)),
                None => None,
            }
        }
    } else {
        Some((Seq::empty(), pos))
    }
}

/// A byte payload of `count` bytes at `pos`, 8 bits each.
pub open spec fn byte_payload(c: Seq<bool>, pos: int, count: int) -> Option<(Seq<u8>, int)>
    decreases count,
{
    if count <= 0 {
        Some((Seq::empty(), pos))
    } else if c.len() - pos < 8 {
        None
    } else {
        match byte_payload(c, pos + 8, count - 1) {
            Some((d, p)) => Some((seq![bits_val(c, pos, 8) as u8] + d, p)),
            None => None,
        }
    }
}

/// A Kanji payload of `count` characters at `pos`, 13 bits each, as Shift-JIS pairs.
pub open spec fn kanji_payload(c: Seq<bool>, pos: int, count: int) -> Option<(Seq<u8>, int)>
    decreases count,
{
    if count <= 0 {
        Some((Seq::empty(), pos))
    } else if c.len() - pos < 13 {
        None
    } else {
        let k = kanji_spec(bits_val(c, pos, 13));
        match kanji_payload(c, pos + 13, count - 1) {
            Some((d, p)) => Some((seq![k.0, k.1] + d, p)),
            None => None,
        }
    }
}

/// The payload of a segment in `mode`.
pub open spec fn payload(mode: Mode, c: Seq<bool>, pos: int, count: int) -> Option<(Seq<u8>, int)> {
    match mode {
        Mode::Numeric => num_payload(c, pos, count),
        Mode::Alphanumeric => alnum_payload(c, pos, count),
        Mode::Byte => byte_payload(c, pos, count),
        _ => kanji_payload(c, pos, count),
    }
}

/// A payload ends at or after its start, within the bits.
pub proof fn lemma_payload_advances(mode: Mode, c: Seq<bool>, pos: int, count: int)
    requires
        pos <= c.len(),
    ensures
        payload(mode, c, pos, count) matches Some((_, p)) ==> pos <= p <= c.len(),
    decreases count,
{
    match mode {
        Mode::Numeric => {
            if count >= 3 && c.len() - pos >= 10 {
                lemma_payload_advances(mode, c, pos + 10, count - 3);
            }
        },
        Mode::Alphanumeric => {
            if count >= 2 && c.len() - pos >= 11 {
                lemma_payload_advances(mode, c, pos + 11, count - 2);
            }
        },
        Mode::Byte => {
            if count > 0 && c.len() - pos >= 8 {
                lemma_payload_advances(mode, c, pos + 8, count - 1);
            }
        },
        _ => {
            if count > 0 && c.len() - pos >= 13 {
                lemma_payload_advances(mode, c, pos + 13, count - 1);
            }
        },
    }
}

/// The segments content bits from `pos` stand for: a mode indicator (none for M1),
/// a character count and the payload, repeated until a zero count, an unusable mode
/// or too few bits for a header; `None` when a payload is cut short or holds a
/// value that is no character.
pub open spec fn parse_from(c: Seq<bool>, pos: int, version: MicroVersion) -> Option<Seq<(Mode, Seq<u8>)>>
    decreases c.len() - pos,
{
    let mib = version_number(version) - 1;
    if pos < 0 || pos > c.len() || c.len() - pos < mib {
        Some(Seq::empty())
    } else {
        let mv: u8 = if mib == 0 { 0 } else { bits_val(c, pos, mib as nat) as u8 };
        let p1 = pos + mib;
        match mode_of_value(mv) {
            None => Some(Seq::empty()),
            Some(m) => {
                let ccb = char_count_table(version, m);
                if ccb <= 0 || c.len() - p1 < ccb {
                    Some(Seq::empty())
                } else {
                    let count = bits_val(c, p1, ccb as nat);
                    let p2 = p1 + ccb;
                    if count == 0 {
                        Some(Seq::empty())
                    } else {
                        match payload(m, c, p2, count) {
                            None => None,
                            Some((d, p3)) => {
                                proof {
                                    lemma_payload_advances(m, c, p2, count);
                                }
                                match parse_from(c, p3, version) {
                                    Some(rest) => Some(seq![(m, d)] + rest),
                                    None => None,
                                }
                            },
                        }
                    }
                }
            },
        }
    }
}

/// Segments as plain values: each one's mode and bytes.
pub open spec fn seg_values(s: Seq<Segment>) -> Seq<(Mode, Seq<u8>)> {
    s.map_values(|x: Segment| (x.mode, x.data@))
}

/// Read a numeric payload of `count` digits at `pos`.
#[verifier::rlimit(30)]
fn read_numeric(content: &[bool], pos: usize, count: usize) -> (r: Result<(Vec<u8>, usize), Error>)
    requires
        pos <= content@.len(),
    ensures
        match num_payload(content@, pos as int, count as int) {
            Some((d, p)) => r is Ok && r->Ok_0.0@ == d && r->Ok_0.1 == p,
            None => r == Err::<(Vec<u8>, usize), Error>(Error::Undecodable),
        },
{
    let len = content.len();
    let p0: usize = pos;
    let mut at: usize = pos;
    let mut out: Vec<u8> = Vec::new();
    let mut remaining = count;
    while remaining >= 3
        invariant
            p0 == pos,
            len == content@.len(),
            at <= len,
            num_payload(content@, p0 as int, count as int) == match num_payload(content@, at as int, remaining as int) {
                Some((d, p)) => Some((out@ + d, p)),
                None => None::<(Seq<u8>, int)>,
            },
        decreases remaining,
    {
        if len - at < 10 {
            assert(num_payload(content@, at as int, remaining as int) is None);
            return Err(Error::Undecodable);
        }
        let v = read_bits(content, at, 10);
        let ghost ob = out@;
        at = at + 10;
        push_decimal(&mut out, v, 3);
        remaining = remaining - 3;
        proof {
            match num_payload(content@, at as int, remaining as int) {
                Some((d, p)) => {
                    assert(ob + (decimal_padded(v, 3) + d) =~= out@ + d);
                },
                None => {},
            }
        }
    }
    if remaining == 2 {
        if len - at < 7 {
            return Err(Error::Undecodable);
        }
        let v = read_bits(content, at, 7);
        let ghost ob = out@;
        at = at + 7;
        push_decimal(&mut out, v, 2);
        assert(ob + decimal_padded(v, 2) =~= out@);
    } else if remaining == 1 {
        if len - at < 4 {
            return Err(Error::Undecodable);
        }
        let v = read_bits(content, at, 4);
        let ghost ob = out@;
        at = at + 4;
        out.push(48 + v as u8);
        assert(ob + seq![(48 + v) as u8] =~= out@);
    } else {
        assert(out@ + Seq::<u8>::empty() =~= out@);
    }
    Ok((out, at))
}

/// Read an alphanumeric payload of `count` characters at `pos`.
#[verifier::rlimit(30)]
fn read_alnum(content: &[bool], pos: usize, count: usize) -> (r: Result<(Vec<u8>, usize), Error>)
    requires
        pos <= content@.len(),
    ensures
        match alnum_payload(content@, pos as int, count as int) {
            Some((d, p)) => r is Ok && r->Ok_0.0@ == d && r->Ok_0.1 == p,
            None => r == Err::<(Vec<u8>, usize), Error>(Error::Undecodable),
        },
{
    let len = content.len();
    let p0: usize = pos;
    let mut at: usize = pos;
    let mut out: Vec<u8> = Vec::new();
    let mut remaining = count;
    while remaining >= 2
        invariant
            p0 == pos,
            len == content@.len(),
            at <= len,
            alnum_payload(content@, p0 as int, count as int) == match alnum_payload(
                content@,
                at as int,
                remaining as int,
            ) {
                Some((d, p)) => Some((out@ + d, p)),
                None => None::<(Seq<u8>, int)>,
            },
        decreases remaining,
    {
        if len - at < 11 {
            assert(alnum_payload(content@, at as int, remaining as int) is None);
            return Err(Error::Undecodable);
        }
        let v = read_bits(content, at, 11);
        let ghost ob = out@;
        at = at + 11;
        let a = match alnum_char(v / 45) {
            Some(c) => c,
            None => {
                return Err(Error::Undecodable);
            },
        };
        let b = match alnum_char(v % 45) {
            Some(c) => c,
            None => {
                return Err(Error::Undecodable);
            },
        };
        out.push(a);
        out.push(b);
        remaining = remaining - 2;
        proof {
            match alnum_payload(content@, at as int, remaining as int) {
                Some((d, p)) => {
                    assert(ob + (seq![a, b] + d) =~= out@ + d);
                },
                None => {},
            }
        }
    }
    if remaining == 1 {
        if len - at < 6 {
            return Err(Error::Undecodable);
        }
        let v = read_bits(content, at, 6);
        let ghost ob = out@;
        at = at + 6;
        match alnum_char(v) {
            Some(c) => out.push(c),
            None => {
                return Err(Error::Undecodable);
            },
        }
        assert(ob + seq![out@.last()] =~= out@);
    } else {
        assert(out@ + Seq::<u8>::empty() =~= out@);
    }
    Ok((out, at))
}

/// Read a byte payload of `count` bytes at `pos`.
fn read_byte_run(content: &[bool], pos: usize, count: usize) -> (r: Result<(Vec<u8>, usize), Error>)
    requires
        pos <= content@.len(),
    ensures
        match byte_payload(content@, pos as int, count as int) {
            Some((d, p)) => r is Ok && r->Ok_0.0@ == d && r->Ok_0.1 == p,
            None => r == Err::<(Vec<u8>, usize), Error>(Error::Undecodable),
        },
{
    let len = content.len();
    let p0: usize = pos;
    let mut at: usize = pos;
    let mut out: Vec<u8> = Vec::new();
    let mut k: usize = 0;
    while k < count
        invariant
            p0 == pos,
            len == content@.len(),
            at <= len,
            k <= count,
            byte_payload(content@, p0 as int, count as int) == match byte_payload(content@, at as int, count - k) {
                Some((d, p)) => Some((out@ + d, p)),
                None => None::<(Seq<u8>, int)>,
            },
        decreases count - k,
    {
        if len - at < 8 {
            assert(byte_payload(content@, at as int, count - k) is None);
            return Err(Error::Undecodable);
        }
        let ghost ob = out@;
        let v = read_bits(content, at, 8);
        out.push(v as u8);
        at = at + 8;
        k = k + 1;
        proof {
            match byte_payload(content@, at as int, count - k) {
                Some((d, p)) => {
                    assert(ob + (seq![v as u8] + d) =~= out@ + d);
                },
                None => {},
            }
        }
    }
    assert(out@ + Seq::<u8>::empty() =~= out@);
    Ok((out, at))
}

/// Read a Kanji payload of `count` characters at `pos`.
fn read_kanji(content: &[bool], pos: usize, count: usize) -> (r: Result<(Vec<u8>, usize), Error>)
    requires
        pos <= content@.len(),
    ensures
        match kanji_payload(content@, pos as int, count as int) {
            Some((d, p)) => r is Ok && r->Ok_0.0@ == d && r->Ok_0.1 == p,
            None => r == Err::<(Vec<u8>, usize), Error>(Error::Undecodable),
        },
{
    let len = content.len();
    let p0: usize = pos;
    let mut at: usize = pos;
    let mut out: Vec<u8> = Vec::new();
    let mut k: usize = 0;
    while k < count
        invariant
            p0 == pos,
            len == content@.len(),
            at <= len,
            k <= count,
            kanji_payload(content@, p0 as int, count as int) == match kanji_payload(content@, at as int, count - k) {
                Some((d, p)) => Some((out@ + d, p)),
                None => None::<(Seq<u8>, int)>,
            },
        decreases count - k,
    {
        if len - at < 13 {
            assert(kanji_payload(content@, at as int, count - k) is None);
            return Err(Error::Undecodable);
        }
        let v = read_bits(content, at, 13);
        let ghost ob = out@;
        at = at + 13;
        let (hi, lo) = kanji_bytes(v);
        out.push(hi);
        out.push(lo);
        k = k + 1;
        proof {
            match kanji_payload(content@, at as int, count - k) {
                Some((d, p)) => {
                    assert(ob + (seq![hi, lo] + d) =~= out@ + d);
                },
                None => {},
            }
        }
    }
    assert(out@ + Seq::<u8>::empty() =~= out@);
    Ok((out, at))
}

/// Read the payload of a `count`-character segment in `mode` at `pos`.
fn read_payload(content: &[bool], pos: usize, mode: Mode, count: usize) -> (r: Result<(Vec<u8>, usize), Error>)
    requires
        pos <= content@.len(),
        !(mode is Eci),
    ensures
        match payload(mode, content@, pos as int, count as int) {
            Some((d, p)) => r is Ok && r->Ok_0.0@ == d && r->Ok_0.1 == p,
            None => r == Err::<(Vec<u8>, usize), Error>(Error::Undecodable),
        },
        r matches Ok((_, p)) ==> pos <= p <= content@.len(),
{
    proof {
        lemma_payload_advances(mode, content@, pos as int, count as int);
    }
    match mode {
        Mode::Numeric => read_numeric(content, pos, count),
        Mode::Alphanumeric => read_alnum(content, pos, count),
        Mode::Byte => read_byte_run(content, pos, count),
        _ => read_kanji(content, pos, count),
    }
}

/// Parse the corrected content bits into segments: a mode indicator (none for M1),
/// a character count, then the payload, until a zero count (the terminator), an
/// unusable mode, or too few bits remain for a header.
pub fn parse_segments(content: &[bool], version: MicroVersion) -> (r: Result<Vec<Segment>, Error>)
    ensures
        r matches Ok(segs) ==> micro_segs(segs@),
        r matches Err(e) ==> e == Error::Undecodable,
        match parse_from(content@, 0, version) {
            Some(s) => r is Ok && seg_values(r->Ok_0@) == s,
            None => r == Err::<Vec<Segment>, Error>(Error::Undecodable),
        },
{
    let len = content.len();
    let mut pos: usize = 0;
    let mut segments: Vec<Segment> = Vec::new();
    let mib = mode_indicator_bits(version);
    let ghost total = parse_from(content@, 0, version);
    loop
        invariant
            len == content@.len(),
            pos <= len,
            mib <= 3,
            mib == version_number(version) - 1,
            micro_segs(segments@),
            total == parse_from(content@, 0, version),
            match parse_from(content@, pos as int, version) {
                Some(rest) => total == Some(seg_values(segments@) + rest),
                None => total is None,
            },
        ensures
            micro_segs(segments@),
            total == Some(seg_values(segments@)),
        decreases len - pos,
    {
        let ghost before = segments@;
        let ghost c = content@;
        proof {
            assert(seg_values(segments@) + Seq::<(Mode, Seq<u8>)>::empty() =~= seg_values(segments@));
        }
        if len - pos < mib {
            assert(parse_from(c, pos as int, version) == Some(Seq::<(Mode, Seq<u8>)>::empty()));
            break;
        }
        let mode_val: u8 = if mib == 0 {
            0
        } else {
            read_bits(content, pos, mib) as u8
        };
        let p1 = pos + mib;
        let mode = match mode_from_micro_value(mode_val) {
            Some(m) => m,
            None => {
                assert(mode_of_value(mode_val) is None);
                assert(parse_from(c, pos as int, version) == Some(Seq::<(Mode, Seq<u8>)>::empty()));
                break;
            },
        };
        assert(mode_of_value(mode_val) == Some(mode));
        let ccb = match char_count_bits(version, &mode) {
            Some(cb) => cb,
            None => {
                assert(parse_from(c, pos as int, version) == Some(Seq::<(Mode, Seq<u8>)>::empty()));
                break;
            },
        };
        assert(1 <= ccb <= 16);
        if len - p1 < ccb {
            assert(parse_from(c, pos as int, version) == Some(Seq::<(Mode, Seq<u8>)>::empty()));
            break;
        }
        let count = read_bits(content, p1, ccb) as usize;
        let p2 = p1 + ccb;
        if count == 0 {
            assert(parse_from(c, pos as int, version) == Some(Seq::<(Mode, Seq<u8>)>::empty()));
            break;
        }
        proof {
            lemma_payload_advances(mode, c, p2 as int, count as int);
            assert(parse_from(c, pos as int, version) == match payload(mode, c, p2 as int, count as int) {
                None => None,
                Some((d, p3)) => match parse_from(c, p3, version) {
                    Some(rest) => Some(seq![(mode, d)] + rest),
                    None => None,
                },
            });
        }
        let (out, np) = match read_payload(content, p2, mode, count) {
            Ok(x) => x,
            Err(e) => {
                return Err(e);
            },
        };
        pos = np;
        push_seg(&mut segments, Segment { mode, data: out });
        proof {
            assert(seg_values(segments@) =~= seg_values(before).push((mode, segments@.last().data@)));
            match parse_from(content@, pos as int, version) {
                Some(rest) => {
                    assert(seg_values(before) + (seq![(mode, segments@.last().data@)] + rest) =~= seg_values(
                        segments@,
                    ) + rest);
                },
                None => {},
            }
        }
    }
    Ok(segments)
}

/// Append a non-ECI segment.
fn push_seg(segments: &mut Vec<Segment>, s: Segment)
    requires
        micro_segs(old(segments)@),
        !(s.mode is Eci),
    ensures
        micro_segs(final(segments)@),
        final(segments)@ == old(segments)@.push(s),
{
    let ghost before = segments@;
    segments.push(s);
    proof {
        assert forall|k: int| 0 <= k < segments@.len() implies !(#[trigger] segments@[k].mode is Eci) by {
            if k < before.len() {
                assert(segments@[k] == before[k]);
            }
        }
    }
}

/// Micro QR Code structural decoder.
#[derive(Debug, Default, Clone, Copy)]
pub struct MicroQrDecoder;

impl MicroQrDecoder {
    /// A new decoder.
    pub fn new() -> (d: Self) {
        MicroQrDecoder
    }

    /// Decode a sampled Micro QR module grid: version from the size, format
    /// information, unmasked data along the zig-zag path, Reed–Solomon correction,
    /// then the segments.
    pub fn decode_matrix(&self, matrix: &BitMatrix) -> (r: Result<Symbol, Error>)
        requires
            matrix.wf(),
        ensures
            matrix.width != matrix.height ==> r == Err::<Symbol, Error>(Error::Undecodable),
            !(matrix.width == 11 || matrix.width == 13 || matrix.width == 15 || matrix.width == 17) ==> r == Err::<
                Symbol,
                Error,
            >(Error::Undecodable),
            r matches Err(e) ==> e == Error::Undecodable || e == Error::ErrorCorrectionFailed,
            r matches Ok(sym) ==> sym.symbology == Symbology::MicroQrCode && micro_segs(sym.segments@) && (
            sym.meta matches SymbolMeta::MicroQr(meta) && 11 + 2 * (crate::codes::microqr::version_number(meta.version)
                - 1) == matrix.width),
    {
        if matrix.width != matrix.height {
            return Err(Error::Undecodable);
        }
        let version = match MicroVersion::from_size(matrix.width) {
            Some(v) => v,
            None => {
                return Err(Error::Undecodable);
            },
        };
        let canvas = Canvas::from_matrix(version, matrix);
        let (sn, mask_idx) = match canvas.read_format() {
            Some(f) => f,
            None => {
                return Err(Error::Undecodable);
            },
        };
        let (fmt_version, ec_level) = match version_ec_from_symbol_number(sn) {
            Some(p) => p,
            None => {
                return Err(Error::Undecodable);
            },
        };
        if fmt_version != version {
            return Err(Error::Undecodable);
        }
        let mask = match MicroMask::new(mask_idx) {
            Some(m) => m,
            None => {
                return Err(Error::Undecodable);
            },
        };
        // Read the masked data modules along the path, unmasking as we go.
        let path = canvas.data_path();
        let mut bits: Vec<bool> = Vec::new();
        let mut k: usize = 0;
        while k < path.len()
            invariant
                canvas.wf(),
                k <= path@.len(),
                bits@.len() == k,
                forall|i: int| 0 <= i < path@.len() ==> (#[trigger] path@[i]).0 < canvas.size && path@[i].1 < canvas.size,
            decreases path@.len() - k,
        {
            let (x, y) = path[k];
            bits.push(canvas.get(x, y) != Canvas::mask_bit(mask, x, y));
            k = k + 1;
        }
        // Every version's path holds all of its data modules.
        if bits.len() != data_module_count(version) {
            return Err(Error::Undecodable);
        }
        let data = match deinterleave_and_correct(bits.as_slice(), version, ec_level) {
            Ok(d) => d,
            Err(e) => {
                return Err(e);
            },
        };
        let segments = match parse_segments(data.as_slice(), version) {
            Ok(s) => s,
            Err(e) => {
                return Err(e);
            },
        };
        let meta = MicroQrMeta { version, ec_level, mask };
        Ok(Symbol::new(Symbology::MicroQrCode, segments, SymbolMeta::MicroQr(meta)))
    }

    /// Decode an encoding (matrices only).
    pub fn decode(&self, encoding: &Encoding) -> (r: Result<Symbol, Error>)
        requires
            encoding matches Encoding::Matrix(m) ==> m.wf(),
        ensures
            encoding is Linear ==> r == Err::<Symbol, Error>(Error::Unsupported),
    {
        match encoding {
            Encoding::Matrix(m) => self.decode_matrix(m),
            Encoding::Linear(_) => Err(Error::Unsupported),
        }
    }
}

} // verus!
