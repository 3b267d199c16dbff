//! Micro QR encoding: segments → data and error-correction codewords → module grid.
use vstd::prelude::*;
use crate::codes::microqr::tables::data_cw_of;
use crate::codes::hanxin::gf::GaloisField;
use crate::codes::microqr::matrix::Canvas;
use crate::codes::microqr::tables::{
    char_count_bits, char_count_table, data_bit_capacity, ec_params, ec_table, micro_mode_spec, micro_mode_value,
    mode_indicator_bits, symbol_number, terminator_bits,
};
use crate::codes::microqr::{version_number, MicroEcLevel, MicroMask, MicroQrMeta, MicroVersion};
use crate::error::Error;
use crate::output::{BitMatrix, Encoding};
use crate::segment::{Mode, Segment};
use crate::symbol::{Symbol, SymbolMeta};
use crate::symbology::Symbology;

verus! {

/// Most data codewords in any Micro QR symbol (M4-L).
pub const MAX_DATA_CW: usize = 16;

/// Most error-correction codewords in any Micro QR symbol (M4-Q).
pub const MAX_EC_CW: usize = 14;

/// `2^n`.
pub open spec fn p2(n: int) -> nat
    decreases n,
{
    if n <= 0 {
        1
    } else {
        2 * p2(n - 1)
    }
}

/// The `len` low bits of `value`, most significant first.
pub open spec fn be_bits(value: int, len: nat) -> Seq<bool> {
    Seq::new(len, |i: int| (value / p2(len - 1 - i) as int) % 2 == 1)
}

/// `2^n` for `n < 32`.
fn pow2(n: usize) -> (r: u32)
    requires
        n < 32,
    ensures
        r == p2(n as int),
        r >= 1,
{
    let mut r: u32 = 1;
    let mut k: usize = 0;
    while k < n
        invariant
            k <= n,
            n < 32,
            r == p2(k as int),
            r >= 1,
        decreases n - k,
    {
        proof {
            lemma_p2_mono(k as int, 30);
            assert(p2(30) == 0x4000_0000) by {
                reveal_with_fuel(p2, 31);
            }
        }
        r = r * 2;
        k = k + 1;
    }
    r
}

/// `2^n` grows with `n`.
proof fn lemma_p2_mono(n: int, m: int)
    requires
        0 <= n <= m,
    ensures
        p2(n) <= p2(m),
    decreases m - n,
{
    if n < m {
        lemma_p2_mono(n, m - 1);
    }
}

/// Append the `len` (1–31) low bits of `value`, most significant first.
pub fn push_bits(w: &mut Vec<bool>, value: u32, len: usize)
    requires
        len < 32,
    ensures
        final(w)@ == old(w)@ + be_bits(value as int, len as nat),
{
    let ghost start = old(w)@;
    let mut k: usize = 0;
    while k < len
        invariant
            k <= len,
            len < 32,
            w@ == start + be_bits(value as int, len as nat).subrange(0, k as int),
        decreases len - k,
    {
        let pw = pow2(len - 1 - k);
        let bit = (value / pw) % 2 == 1;
        w.push(bit);
        proof {
            assert(w@ =~= start + be_bits(value as int, len as nat).subrange(0, k + 1));
        }
        k = k + 1;
    }
    proof {
        assert(be_bits(value as int, len as nat).subrange(0, len as int) =~= be_bits(value as int, len as nat));
    }
}

/// The alphanumeric value of a character, if it is in the set.
pub open spec fn alnum_value_spec(b: u8) -> Option<u32> {
    if 48 <= b <= 57 {
        Some((b - 48) as u32)
    } else if 65 <= b <= 90 {
        Some((b - 65 + 10) as u32)
    } else if b == 32 {
        Some(36u32)
    } else if b == 36 {
        Some(37u32)
    } else if b == 37 {
        Some(38u32)
    } else if b == 42 {
        Some(39u32)
    } else if b == 43 {
        Some(40u32)
    } else if b == 45 {
        Some(41u32)
    } else if b == 46 {
        Some(42u32)
    } else if b == 47 {
        Some(43u32)
    } else if b == 58 {
        Some(44u32)
    } else {
        None
    }
}

/// The alphanumeric value of a character, or `None` if outside the set.
pub fn alnum_value(b: u8) -> (r: Option<u32>)
    ensures
        r == alnum_value_spec(b),
        r matches Some(v) ==> v < 45,
{
    if 48 <= b && b <= 57 {
        Some((b - 48) as u32)
    } else if 65 <= b && b <= 90 {
        Some((b - 65 + 10) as u32)
    } else if b == 32 {
        Some(36)
    } else if b == 36 {
        Some(37)
    } else if b == 37 {
        Some(38)
    } else if b == 42 {
        Some(39)
    } else if b == 43 {
        Some(40)
    } else if b == 45 {
        Some(41)
    } else if b == 46 {
        Some(42)
    } else if b == 47 {
        Some(43)
    } else if b == 58 {
        Some(44)
    } else {
        None
    }
}

/// The 13-bit QR Kanji value of a Shift-JIS double byte, if in range.
pub open spec fn kanji_value_spec(hi: u8, lo: u8) -> Option<u32> {
    let code = hi as int * 256 + lo as int;
    if 0x8140 <= code <= 0x9FFC {
        let base = code - 0x8140;
        Some(((base / 256) * 0xC0 + base % 256) as u32)
    } else if 0xE040 <= code <= 0xEBBF {
        let base = code - 0xC140;
        Some(((base / 256) * 0xC0 + base % 256) as u32)
    } else {
        None
    }
}

/// The 13-bit QR Kanji value of a Shift-JIS double byte, if in range.
pub fn kanji_value(hi: u8, lo: u8) -> (r: Option<u32>)
    ensures
        r == kanji_value_spec(hi, lo),
{
    let code = (hi as u32) * 256 + lo as u32;
    if 0x8140 <= code && code <= 0x9FFC {
        let base = code - 0x8140;
        Some((base / 256) * 0xC0 + base % 256)
    } else if 0xE040 <= code && code <= 0xEBBF {
        let base = code - 0xC140;
        Some((base / 256) * 0xC0 + base % 256)
    } else {
        None
    }
}

/// The decimal value of the digits `d[i..i + n]`.
pub open spec fn digits_value(d: Seq<u8>, i: int, n: nat) -> int
    decreases n,
{
    if n == 0 {
        0
    } else {
        digits_value(d, i, (n - 1) as nat) * 10 + (d[i + n - 1] - 48)
    }
}

/// Numeric payload bits from `i`: groups of three digits in 10 bits, a final pair
/// in 7, a final digit in 4.
pub open spec fn numeric_bits(d: Seq<u8>, i: int) -> Seq<bool>
    decreases d.len() - i,
{
    if i < 0 || i >= d.len() {
        Seq::empty()
    } else {
        let n: nat = if d.len() - i >= 3 { 3 } else { (d.len() - i) as nat };
        let w: nat = if n == 3 { 10 } else if n == 2 { 7 } else { 4 };
        be_bits(digits_value(d, i, n), w) + numeric_bits(d, i + n)
    }
}

/// Alphanumeric payload bits from `i`: pairs in 11 bits, a final single in 6.
pub open spec fn alnum_bits(d: Seq<u8>, i: int) -> Seq<bool>
    decreases d.len() - i,
{
    if i < 0 || i >= d.len() {
        Seq::empty()
    } else if d.len() - i >= 2 {
        be_bits(alnum_value_spec(d[i])->0 * 45 + alnum_value_spec(d[i + 1])->0, 11) + alnum_bits(d, i + 2)
    } else {
        be_bits(alnum_value_spec(d[i])->0 as int, 6)
    }
}

/// Byte payload bits from `i`.
pub open spec fn byte_bits(d: Seq<u8>, i: int) -> Seq<bool>
    decreases d.len() - i,
{
    if i < 0 || i >= d.len() {
        Seq::empty()
    } else {
        be_bits(d[i] as int, 8) + byte_bits(d, i + 1)
    }
}

/// Kanji payload bits from `i`: each byte pair in 13 bits.
pub open spec fn kanji_bits(d: Seq<u8>, i: int) -> Seq<bool>
    decreases d.len() - i,
{
    if i < 0 || i + 1 >= d.len() {
        Seq::empty()
    } else {
        be_bits(kanji_value_spec(d[i], d[i + 1])->0 as int, 13) + kanji_bits(d, i + 2)
    }
}

/// The segment can be written at `version`.
pub open spec fn seg_ok(mode: Mode, d: Seq<u8>, version: MicroVersion) -> bool {
    &&& !(mode is Eci)
    &&& char_count_table(version, mode) > 0
    &&& match mode {
        Mode::Numeric => forall|k: int| 0 <= k < d.len() ==> 48 <= #[trigger] d[k] <= 57,
        Mode::Alphanumeric => forall|k: int| 0 <= k < d.len() ==> #[trigger] alnum_value_spec(d[k]) is Some,
        Mode::Kanji => d.len() % 2 == 0 && forall|k: int| 0 <= k < d.len() / 2 ==> #[trigger] kanji_value_spec(
            d[2 * k],
            d[2 * k + 1],
        ) is Some,
        _ => true,
    }
}

/// The bits of one segment: mode indicator, character count, payload.
pub open spec fn seg_bits(mode: Mode, d: Seq<u8>, version: MicroVersion) -> Seq<bool> {
    let mib = (version_number(version) - 1) as nat;
    let ccb = char_count_table(version, mode) as nat;
    let head = if mib > 0 { be_bits(micro_mode_spec(mode)->0 as int, mib) } else { Seq::empty() };
    let count: int = if mode == Mode::Kanji { (d.len() / 2) as int } else { d.len() as int };
    let body = match mode {
        Mode::Numeric => numeric_bits(d, 0),
        Mode::Alphanumeric => alnum_bits(d, 0),
        Mode::Kanji => kanji_bits(d, 0),
        _ => byte_bits(d, 0),
    };
    head + be_bits(count, ccb) + body
}

/// Numeric payload.
fn write_numeric(w: &mut Vec<bool>, data: &Vec<u8>) -> (r: Result<(), Error>)
    ensures
        r matches Err(e) ==> e == Error::InvalidData,
        r is Ok <==> forall|k: int| 0 <= k < data@.len() ==> 48 <= #[trigger] data@[k] <= 57,
        r is Ok ==> final(w)@ == old(w)@ + numeric_bits(data@, 0),
{
    let ghost d = data@;
    let ghost head = old(w)@;
    let len = data.len();
    let mut i: usize = 0;
    while i < len
        invariant
            len == d.len(),
            data@ == d,
            i <= len,
            w@ + numeric_bits(d, i as int) == head + numeric_bits(d, 0),
            forall|k: int| 0 <= k < i ==> 48 <= #[trigger] d[k] <= 57,
        decreases len - i,
    {
        let n: usize = if len - i >= 3 { 3 } else { len - i };
        let mut val: u32 = 0;
        let mut j: usize = 0;
        while j < n
            invariant
                len == d.len(),
                data@ == d,
                i + n <= len,
                1 <= n <= 3,
                j <= n,
                val == digits_value(d, i as int, j as nat),
                val < (if j == 0 { 1int } else if j == 1 { 10int } else if j == 2 { 100int } else { 1000int }),
                forall|k: int| 0 <= k < i + j ==> 48 <= #[trigger] d[k] <= 57,
            decreases n - j,
        {
            let c = data[i + j];
            if !(48 <= c && c <= 57) {
                proof {
                    assert(!(48 <= d[i + j] <= 57));
                }
                return Err(Error::InvalidData);
            }
            val = val * 10 + (c - 48) as u32;
            j = j + 1;
        }
        let bits: usize = if n == 3 { 10 } else if n == 2 { 7 } else { 4 };
        let ghost before = w@;
        push_bits(w, val, bits);
        proof {
            assert(numeric_bits(d, i as int) == be_bits(digits_value(d, i as int, n as nat), bits as nat)
                + numeric_bits(d, (i + n) as int));
            assert(w@ + numeric_bits(d, (i + n) as int) =~= before + numeric_bits(d, i as int));
        }
        i = i + n;
    }
    proof {
        assert(numeric_bits(d, len as int) =~= Seq::<bool>::empty());
        assert(w@ =~= w@ + numeric_bits(d, len as int));
    }
    Ok(())
}

/// Alphanumeric payload.
fn write_alnum(w: &mut Vec<bool>, data: &Vec<u8>) -> (r: Result<(), Error>)
    ensures
        r matches Err(e) ==> e == Error::InvalidData,
        r is Ok <==> forall|k: int| 0 <= k < data@.len() ==> #[trigger] alnum_value_spec(data@[k]) is Some,
        r is Ok ==> final(w)@ == old(w)@ + alnum_bits(data@, 0),
{
    let ghost d = data@;
    let ghost head = old(w)@;
    let len = data.len();
    let mut i: usize = 0;
    while i < len
        invariant
            len == d.len(),
            data@ == d,
            i <= len,
            w@ + alnum_bits(d, i as int) == head + alnum_bits(d, 0),
            forall|k: int| 0 <= k < i ==> #[trigger] alnum_value_spec(d[k]) is Some,
        decreases len - i,
    {
        let a = match alnum_value(data[i]) {
            Some(v) => v,
            None => {
                return Err(Error::InvalidData);
            },
        };
        let ghost before = w@;
        if len - i >= 2 {
            let b = match alnum_value(data[i + 1]) {
                Some(v) => v,
                None => {
                    return Err(Error::InvalidData);
                },
            };
            push_bits(w, a * 45 + b, 11);
            proof {
                assert(w@ + alnum_bits(d, (i + 2) as int) =~= before + alnum_bits(d, i as int));
            }
            i = i + 2;
        } else {
            push_bits(w, a, 6);
            proof {
                assert(alnum_bits(d, (i + 1) as int) =~= Seq::<bool>::empty());
                assert(w@ + alnum_bits(d, (i + 1) as int) =~= before + alnum_bits(d, i as int));
            }
            i = i + 1;
        }
    }
    proof {
        assert(alnum_bits(d, i as int) =~= Seq::<bool>::empty());
        assert(w@ =~= w@ + alnum_bits(d, i as int));
    }
    Ok(())
}

/// Byte payload.
fn write_bytes(w: &mut Vec<bool>, data: &Vec<u8>)
    ensures
        final(w)@ == old(w)@ + byte_bits(data@, 0),
{
    let ghost d = data@;
    let ghost head = old(w)@;
    let len = data.len();
    let mut i: usize = 0;
    while i < len
        invariant
            len == d.len(),
            data@ == d,
            i <= len,
            w@ + byte_bits(d, i as int) == head + byte_bits(d, 0),
        decreases len - i,
    {
        let ghost before = w@;
        push_bits(w, data[i] as u32, 8);
        proof {
            assert(w@ + byte_bits(d, (i + 1) as int) =~= before + byte_bits(d, i as int));
        }
        i = i + 1;
    }
    proof {
        assert(byte_bits(d, len as int) =~= Seq::<bool>::empty());
        assert(w@ =~= w@ + byte_bits(d, len as int));
    }
}

/// Kanji payload (even length).
fn write_kanji(w: &mut Vec<bool>, data: &Vec<u8>) -> (r: Result<(), Error>)
    requires
        data@.len() % 2 == 0,
    ensures
        r matches Err(e) ==> e == Error::InvalidData,
        r is Ok <==> forall|k: int| 0 <= k < data@.len() / 2 ==> #[trigger] kanji_value_spec(data@[2 * k], data@[2 * k + 1]) is Some,
        r is Ok ==> final(w)@ == old(w)@ + kanji_bits(data@, 0),
{
    let ghost d = data@;
    let ghost head = old(w)@;
    let len = data.len();
    let mut i: usize = 0;
    while i < len
        invariant
            len == d.len(),
            data@ == d,
            len % 2 == 0,
            i % 2 == 0,
            i <= len,
            w@ + kanji_bits(d, i as int) == head + kanji_bits(d, 0),
            forall|k: int| 0 <= k < i / 2 ==> #[trigger] kanji_value_spec(d[2 * k], d[2 * k + 1]) is Some,
        decreases len - i,
    {
        let v = match kanji_value(data[i], data[i + 1]) {
            Some(v) => v,
            None => {
                proof {
                    let k = (i / 2) as int;
                    assert(2 * k == i);
                    assert(kanji_value_spec(d[2 * k], d[2 * k + 1]) is None);
                }
                return Err(Error::InvalidData);
            },
        };
        let ghost before = w@;
        push_bits(w, v, 13);
        proof {
            assert(w@ + kanji_bits(d, (i + 2) as int) =~= before + kanji_bits(d, i as int));
            assert forall|k: int| 0 <= k < (i + 2) / 2 implies #[trigger] kanji_value_spec(d[2 * k], d[2 * k + 1]) is Some by {
                if k == i / 2 {
                    assert(2 * k == i);
                }
            }
        }
        i = i + 2;
    }
    proof {
        assert(kanji_bits(d, len as int) =~= Seq::<bool>::empty());
        assert(w@ =~= w@ + kanji_bits(d, len as int));
    }
    Ok(())
}

/// Write one segment's header and payload bits.
pub fn write_segment(w: &mut Vec<bool>, seg: &Segment, version: MicroVersion) -> (r: Result<(), Error>)
    requires
        seg.data@.len() <= u32::MAX,
    ensures
        r is Ok <==> seg_ok(seg.mode, seg.data@, version),
        r is Ok ==> final(w)@ == old(w)@ + seg_bits(seg.mode, seg.data@, version),
        r matches Err(e) ==> e == Error::InvalidData,
{
    let ghost d = seg.data@;
    let ghost base = old(w)@;
    if let Mode::Eci(_) = seg.mode {
        return Err(Error::InvalidData);
    }
    let mib = mode_indicator_bits(version);
    let mv = match micro_mode_value(&seg.mode) {
        Some(v) => v,
        None => {
            return Err(Error::InvalidData);
        },
    };
    let ccb = match char_count_bits(version, &seg.mode) {
        Some(c) => c,
        None => {
            return Err(Error::InvalidData);
        },
    };
    assert(ccb <= 16 && mib <= 3);
    let is_kanji = seg.mode == Mode::Kanji;
    if is_kanji && seg.data.len() % 2 != 0 {
        return Err(Error::InvalidData);
    }
    if mib > 0 {
        push_bits(w, mv as u32, mib);
    } else {
        proof {
            assert(w@ =~= base + Seq::<bool>::empty());
        }
    }
    let len = seg.data.len();
    let count: u32 = if is_kanji { (len / 2) as u32 } else { len as u32 };
    push_bits(w, count, ccb);
    let r = match seg.mode {
        Mode::Numeric => write_numeric(w, &seg.data),
        Mode::Alphanumeric => write_alnum(w, &seg.data),
        Mode::Byte => {
            write_bytes(w, &seg.data);
            Ok(())
        },
        _ => write_kanji(w, &seg.data),
    };
    proof {
        if r is Ok {
            assert(w@ =~= base + seg_bits(seg.mode, d, version));
        }
    }
    r
}
/// Every version, smallest first.
pub open spec fn version_at(i: int) -> MicroVersion {
    if i == 0 {
        MicroVersion::M1
    } else if i == 1 {
        MicroVersion::M2
    } else if i == 2 {
        MicroVersion::M3
    } else {
        MicroVersion::M4
    }
}

/// Data bits available at `version` and `ec` (M1 and M3 end on a 4-bit codeword).
pub open spec fn cap_bits(version: MicroVersion, ec: MicroEcLevel) -> int {
    let d = data_cw_of(version, ec);
    if version == MicroVersion::M1 || version == MicroVersion::M3 {
        (d - 1) * 8 + 4
    } else {
        d * 8
    }
}

/// `segs` can be written at `version`, which offers level `ec`, within its data
/// capacity.
pub open spec fn fits(segs: Seq<Segment>, version: MicroVersion, ec: MicroEcLevel) -> bool {
    &&& ec_table(version, ec) is Some
    &&& segs_bits(segs, version, segs.len()) is Some
    &&& segs_bits(segs, version, segs.len())->0.len() <= cap_bits(version, ec)
}

/// Some version holds `segs` at level `ec`.
pub open spec fn some_fit(segs: Seq<Segment>, ec: MicroEcLevel) -> bool {
    fits(segs, MicroVersion::M1, ec) || fits(segs, MicroVersion::M2, ec) || fits(segs, MicroVersion::M3, ec)
        || fits(segs, MicroVersion::M4, ec)
}

/// The smallest version that holds `segs` at level `ec` (meaningful when one does).
pub open spec fn first_fit(segs: Seq<Segment>, ec: MicroEcLevel) -> MicroVersion {
    if fits(segs, MicroVersion::M1, ec) {
        MicroVersion::M1
    } else if fits(segs, MicroVersion::M2, ec) {
        MicroVersion::M2
    } else if fits(segs, MicroVersion::M3, ec) {
        MicroVersion::M3
    } else {
        MicroVersion::M4
    }
}

/// The mode `encode_text_into` picks for `t`: numeric when every byte is a digit,
/// else alphanumeric when every byte is in that set, else byte (byte for no input).
pub open spec fn text_mode(t: Seq<u8>) -> Mode {
    if t.len() > 0 && forall|k: int| 0 <= k < t.len() ==> 48 <= #[trigger] t[k] <= 57 {
        Mode::Numeric
    } else if t.len() > 0 && forall|k: int| 0 <= k < t.len() ==> #[trigger] alnum_value_spec(t[k]) is Some {
        Mode::Alphanumeric
    } else {
        Mode::Byte
    }
}

/// A single segment `(mode, d)` fits `version` at level `ec`.
pub open spec fn fits_one(mode: Mode, d: Seq<u8>, version: MicroVersion, ec: MicroEcLevel) -> bool {
    &&& ec_table(version, ec) is Some
    &&& seg_ok(mode, d, version)
    &&& seg_bits(mode, d, version).len() <= cap_bits(version, ec)
}

/// Some version holds the single segment `(mode, d)` at level `ec`.
pub open spec fn some_fit_one(mode: Mode, d: Seq<u8>, ec: MicroEcLevel) -> bool {
    fits_one(mode, d, MicroVersion::M1, ec) || fits_one(mode, d, MicroVersion::M2, ec) || fits_one(
        mode,
        d,
        MicroVersion::M3,
        ec,
    ) || fits_one(mode, d, MicroVersion::M4, ec)
}

/// The smallest version that holds the single segment `(mode, d)` at level `ec`.
pub open spec fn first_fit_one(mode: Mode, d: Seq<u8>, ec: MicroEcLevel) -> MicroVersion {
    if fits_one(mode, d, MicroVersion::M1, ec) {
        MicroVersion::M1
    } else if fits_one(mode, d, MicroVersion::M2, ec) {
        MicroVersion::M2
    } else if fits_one(mode, d, MicroVersion::M3, ec) {
        MicroVersion::M3
    } else {
        MicroVersion::M4
    }
}

/// A one-segment list fits exactly where its segment does.
pub proof fn lemma_fits_single(segs: Seq<Segment>, version: MicroVersion, ec: MicroEcLevel)
    requires
        segs.len() == 1,
    ensures
        fits(segs, version, ec) == fits_one(segs[0].mode, segs[0].data@, version, ec),
{
    assert(segs_bits(segs, version, 0) == Some(Seq::<bool>::empty()));
    let b = seg_bits(segs[0].mode, segs[0].data@, version);
    assert(Seq::<bool>::empty() + b =~= b);
}

/// Segments whose lengths fit a bit count.
pub open spec fn short_segs(segs: Seq<Segment>) -> bool {
    forall|k: int| 0 <= k < segs.len() ==> #[trigger] segs[k].data@.len() <= u32::MAX
}

/// The bits of all segments, one after another, if each can be written.
pub open spec fn segs_bits(segs: Seq<Segment>, version: MicroVersion, n: nat) -> Option<Seq<bool>>
    decreases n,
{
    if n == 0 {
        Some(Seq::empty())
    } else {
        match segs_bits(segs, version, (n - 1) as nat) {
            Some(b) => if seg_ok(segs[n - 1].mode, segs[n - 1].data@, version) {
                Some(b + seg_bits(segs[n - 1].mode, segs[n - 1].data@, version))
            } else {
                None
            },
            None => None,
        }
    }
}

/// Write all segments.
fn write_all(w: &mut Vec<bool>, segments: &[Segment], version: MicroVersion) -> (r: Result<(), Error>)
    requires
        old(w)@.len() == 0,
        short_segs(segments@),
    ensures
        r is Ok <==> segs_bits(segments@, version, segments@.len()) is Some,
        r is Ok ==> segs_bits(segments@, version, segments@.len()) == Some(final(w)@),
        r matches Err(e) ==> e == Error::InvalidData,
{
    let mut k: usize = 0;
    while k < segments.len()
        invariant
            k <= segments@.len(),
            short_segs(segments@),
            segs_bits(segments@, version, k as nat) == Some(w@),
        decreases segments@.len() - k,
    {
        match write_segment(w, &segments[k], version) {
            Ok(()) => {},
            Err(e) => {
                proof {
                    lemma_segs_bits_none(segments@, version, (k + 1) as nat, segments@.len());
                }
                return Err(e);
            },
        }
        k = k + 1;
    }
    Ok(())
}

/// Once a segment cannot be written, no longer prefix can.
proof fn lemma_segs_bits_none(segs: Seq<Segment>, version: MicroVersion, n: nat, m: nat)
    requires
        n <= m,
        segs_bits(segs, version, n) is None,
    ensures
        segs_bits(segs, version, m) is None,
    decreases m - n,
{
    if n < m {
        lemma_segs_bits_none(segs, version, n + 1, m);
    }
}

/// Total encoded bit length of all segments at a version, or `None` if any segment
/// cannot be written there.
pub fn segments_bit_len(segments: &[Segment], version: MicroVersion) -> (r: Option<usize>)
    requires
        short_segs(segments@),
    ensures
        r is Some <==> segs_bits(segments@, version, segments@.len()) is Some,
        r matches Some(n) ==> segs_bits(segments@, version, segments@.len())->0.len() == n,
{
    let mut w: Vec<bool> = Vec::new();
    match write_all(&mut w, segments, version) {
        Ok(()) => Some(w.len()),
        Err(_) => None,
    }
}

/// The smallest version (at `level`) whose data capacity holds `segments`.
pub fn choose_version(segments: &[Segment], level: MicroEcLevel) -> (r: Result<MicroVersion, Error>)
    requires
        short_segs(segments@),
    ensures
        r matches Ok(v) ==> ec_table(v, level) is Some && segs_bits(segments@, v, segments@.len()) is Some,
        r matches Err(e) ==> e == Error::Capacity,
        r is Ok <==> some_fit(segments@, level),
        r matches Ok(v) ==> v == first_fit(segments@, level),
{
    let versions = [MicroVersion::M1, MicroVersion::M2, MicroVersion::M3, MicroVersion::M4];
    let mut i: usize = 0;
    while i < 4
        invariant
            i <= 4,
            short_segs(segments@),
            versions@ == seq![MicroVersion::M1, MicroVersion::M2, MicroVersion::M3, MicroVersion::M4],
            forall|j: int| 0 <= j < i ==> !fits(segments@, #[trigger] version_at(j), level),
        decreases 4 - i,
    {
        let v = versions[i];
        assert(v == version_at(i as int));
        if let Some(cap) = data_bit_capacity(v, level) {
            if let Some(len) = segments_bit_len(segments, v) {
                if len <= cap {
                    proof {
                        assert(fits(segments@, v, level));
                        assert forall|j: int| 0 <= j < i implies !fits(segments@, #[trigger] version_at(j), level) by {}
                        assert(!fits(segments@, version_at(0), level) ==> i > 0 || v == MicroVersion::M1);
                        if i >= 1 {
                            assert(!fits(segments@, version_at(0), level));
                        }
                        if i >= 2 {
                            assert(!fits(segments@, version_at(1), level));
                        }
                        if i >= 3 {
                            assert(!fits(segments@, version_at(2), level));
                        }
                    }
                    return Ok(v);
                }
            }
        }
        i = i + 1;
    }
    proof {
        assert(!fits(segments@, version_at(0), level));
        assert(!fits(segments@, version_at(1), level));
        assert(!fits(segments@, version_at(2), level));
        assert(!fits(segments@, version_at(3), level));
    }
    Err(Error::Capacity)
}

/// The QR Reed–Solomon field: GF(256) over `x^8 + x^4 + x^3 + x^2 + 1`.
fn qr_field() -> (f: GaloisField)
    ensures
        f.wf(),
        f.ord() == 255,
{
    assert(256usize & ((256usize - 1) as usize) == 0) by (bit_vector);
    assert(0x11du16 & (256usize as u16) != 0) by (bit_vector);
    GaloisField::new(0x11d, 256)
}

/// The data and error-correction codewords for a version and level: data codewords
/// at the front of a 30-byte array, EC codewords from byte [`MAX_DATA_CW`]. Also
/// returns the data bits the symbol places (M1/M3 end on a 4-bit codeword) and the
/// total placed bit count.
pub fn codewords(segments: &[Segment], version: MicroVersion, ec: MicroEcLevel) -> (r: Result<(Vec<u8>, usize, usize), Error>)
    requires
        short_segs(segments@),
    ensures
        ec_table(version, ec) is None ==> r == Err::<(Vec<u8>, usize, usize), Error>(Error::InvalidParameter),
        r matches Ok((cw, db, tb)) ==> ec_table(version, ec) matches Some((d, e)) && cw@.len() == MAX_DATA_CW
            + MAX_EC_CW && db == (if version == MicroVersion::M1 || version == MicroVersion::M3 { (d - 1) * 8 + 4 } else {
            d * 8
        }) && tb == db + 8 * e,
        r matches Err(e) ==> e == Error::InvalidParameter || e == Error::InvalidData || e == Error::Capacity,
        r is Ok <==> fits(segments@, version, ec),
{
    let params = match ec_params(version, ec) {
        Some(p) => p,
        None => {
            return Err(Error::InvalidParameter);
        },
    };
    let cap_bits = match data_bit_capacity(version, ec) {
        Some(c) => c,
        None => 0,
    };
    let data_cw = params.data_cw;
    let ec_cw = params.ec_cw;
    assert(1 <= data_cw <= 16 && 1 <= ec_cw <= 14 && cap_bits <= 8 * data_cw);
    let mut w: Vec<bool> = Vec::new();
    match write_all(&mut w, segments, version) {
        Ok(()) => {},
        Err(e) => {
            return Err(e);
        },
    }
    if w.len() > cap_bits {
        return Err(Error::Capacity);
    }
    // Terminator, bounded by the remaining capacity (the bits stay zero).
    let room = cap_bits - w.len();
    let term = terminator_bits(version);
    let used = w.len() + if room < term { room } else { term };
    // Pack the written bits into the data codewords.
    let mut data: Vec<u8> = Vec::new();
    let mut b: usize = 0;
    while b < data_cw
        invariant
            b <= data_cw,
            data_cw <= 16,
            data@.len() == b,
        decreases data_cw - b,
    {
        let mut byte: u8 = 0;
        let mut k: usize = 0;
        while k < 8
            invariant
                k <= 8,
                b < data_cw,
                data_cw <= 16,
                byte < p2(k as int),
            decreases 8 - k,
        {
            let idx = b * 8 + k;
            let bit: u8 = if idx < w.len() && w[idx] { 1 } else { 0 };
            proof {
                lemma_p2_mono(k as int, 7);
                assert(p2(7) == 128) by {
                    reveal_with_fuel(p2, 8);
                }
                assert(p2(k + 1) == 2 * p2(k as int));
            }
            byte = byte * 2 + bit;
            k = k + 1;
        }
        data.push(byte);
        b = b + 1;
    }
    // Pad to a byte boundary, then with alternating 0xEC / 0x11 (the 4-bit final
    // codeword of M1/M3 is not a pad position).
    let full_cw = cap_bits / 8;
    let first = (used + 7) / 8;
    let mut p = first;
    while p < full_cw
        invariant
            full_cw <= data_cw,
            data@.len() == data_cw,
            first <= p,
        decreases full_cw - p,
    {
        data.set(p, if (p - first) % 2 == 0 { 0xEC } else { 0x11 });
        p = p + 1;
    }
    let gf = qr_field();
    proof {
        gf.lemma_wf();
    }
    let ecw = gf.rs_encode(data.as_slice(), ec_cw, 0);
    let mut out: Vec<u8> = Vec::new();
    let mut q: usize = 0;
    while q < MAX_DATA_CW + MAX_EC_CW
        invariant
            q <= MAX_DATA_CW + MAX_EC_CW,
            out@.len() == q,
            data@.len() == data_cw,
            data_cw <= 16,
            ec_cw <= 14,
        decreases MAX_DATA_CW + MAX_EC_CW - q,
    {
        let v: u8 = if q < data_cw {
            data[q]
        } else if q >= MAX_DATA_CW && q - MAX_DATA_CW < ec_cw && q - MAX_DATA_CW < ecw.len() {
            ecw[q - MAX_DATA_CW]
        } else {
            0
        };
        out.push(v);
        q = q + 1;
    }
    Ok((out, cap_bits, cap_bits + ec_cw * 8))
}

/// Segments within the length a character count can hold, checked.
fn segs_fit(segments: &[Segment]) -> (r: bool)
    ensures
        r == short_segs(segments@),
{
    let mut k: usize = 0;
    while k < segments.len()
        invariant
            k <= segments@.len(),
            forall|i: int| 0 <= i < k ==> #[trigger] segments@[i].data@.len() <= u32::MAX,
        decreases segments@.len() - k,
    {
        if segments[k].data.len() > 0xffff_ffff {
            return false;
        }
        k = k + 1;
    }
    true
}

/// Micro QR Code encoder.
#[derive(Debug, Default, Clone, Copy)]
pub struct MicroQrEncoder;

impl MicroQrEncoder {
    /// A new encoder.
    pub fn new() -> (e: Self) {
        MicroQrEncoder
    }

    /// Encode `segments` at error-correction `level`. `version` and `mask` pin those
    /// choices when given; otherwise the smallest version that fits (and supports
    /// `level` and every segment's mode) and the highest-scoring mask (the lowest
    /// index on ties) are chosen.
    pub fn encode_into(
        &self,
        segments: &[Segment],
        level: MicroEcLevel,
        version: Option<MicroVersion>,
        mask: Option<MicroMask>,
    ) -> (r: Result<(BitMatrix, MicroQrMeta), Error>)
        ensures
            r matches Ok((m, meta)) ==> {
                &&& m.wf()
                &&& m.width == 11 + 2 * (version_number(meta.version) - 1)
                &&& m.height == m.width
                &&& meta.ec_level == level
                &&& ec_table(meta.version, level) is Some
                &&& version matches Some(v) ==> meta.version == v
                &&& mask matches Some(k) ==> meta.mask == k
            },
            version matches Some(v) && ec_table(v, level) is None ==> r is Err,
            r matches Err(e) ==> e == Error::Capacity || e == Error::InvalidParameter || e == Error::InvalidData,
            r is Ok <==> short_segs(segments@) && match version {
                Some(v) => fits(segments@, v, level),
                None => some_fit(segments@, level),
            },
            r matches Ok((m, meta)) ==> version is None ==> meta.version == first_fit(segments@, level),
    {
        if !segs_fit(segments) {
            return Err(Error::Capacity);
        }
        let version = match version {
            Some(v) => v,
            None => match choose_version(segments, level) {
                Ok(v) => v,
                Err(e) => {
                    return Err(e);
                },
            },
        };
        let sn = match symbol_number(version, level) {
            Some(s) => s,
            None => {
                return Err(Error::InvalidParameter);
            },
        };
        let (cw, data_bits, total_bits) = match codewords(segments, version, level) {
            Ok(x) => x,
            Err(e) => {
                return Err(e);
            },
        };
        let mut canvas = Canvas::new(version);
        let path = canvas.data_path();
        let n = if total_bits < path.len() { total_bits } else { path.len() };
        let mut i: usize = 0;
        while i < n
            invariant
                canvas.wf(),
                canvas.size == 11 + 2 * (version_number(version) - 1),
                i <= n,
                n <= total_bits,
                n <= path@.len(),
                data_bits <= 128,
                total_bits <= data_bits + 8 * 14,
                cw@.len() == MAX_DATA_CW + MAX_EC_CW,
                forall|k: int| 0 <= k < path@.len() ==> (#[trigger] path@[k]).0 < canvas.size && path@[k].1 < canvas.size,
            decreases n - i,
        {
            let (x, y) = path[i];
            // Data bits first (M1/M3 place only the final codeword's high nibble),
            // then the error-correction codewords.
            let bit = if i < data_bits { i } else { MAX_DATA_CW * 8 + (i - data_bits) };
            let byte = cw[bit / 8];
            if ((byte as u32) / pow2(7 - bit % 8)) % 2 == 1 {
                canvas.place_data_bit(x, y, true);
            }
            i = i + 1;
        }
        let mask = match mask {
            Some(m) => m,
            None => {
                let mut best: u8 = 0;
                let mut best_score: u32 = 0;
                let mut m: u8 = 0;
                while m < 4
                    invariant
                        canvas.wf(),
                        canvas.size == 11 + 2 * (version_number(version) - 1),
                        m <= 4,
                        best < 4,
                    decreases 4 - m,
                {
                    let candidate = match MicroMask::new(m) {
                        Some(k) => k,
                        None => {
                            return Err(Error::InvalidParameter);
                        },
                    };
                    canvas.apply_mask(candidate);
                    canvas.place_format(sn, candidate);
                    let score = canvas.evaluate();
                    if m == 0 || score > best_score {
                        best = m;
                        best_score = score;
                    }
                    canvas.apply_mask(candidate);
                    m = m + 1;
                }
                match MicroMask::new(best) {
                    Some(k) => k,
                    None => {
                        return Err(Error::InvalidParameter);
                    },
                }
            },
        };
        canvas.apply_mask(mask);
        canvas.place_format(sn, mask);
        let meta = MicroQrMeta { version, ec_level: level, mask };
        Ok((canvas.into_grid(), meta))
    }

    /// Encode `text` as a single numeric, alphanumeric or byte segment (the densest
    /// mode that holds every byte), at the smallest fitting version with the
    /// highest-scoring mask.
    pub fn encode_text_into(&self, text: &[u8], level: MicroEcLevel) -> (r: Result<(BitMatrix, MicroQrMeta), Error>)
        ensures
            r matches Ok((m, meta)) ==> m.wf() && meta.ec_level == level,
            r is Ok <==> text@.len() <= u32::MAX && some_fit_one(text_mode(text@), text@, level),
            r matches Ok((m, meta)) ==> meta.version == first_fit_one(text_mode(text@), text@, level),
    {
        let mut all_digits = text.len() > 0;
        let mut all_alnum = text.len() > 0;
        let mut k: usize = 0;
        while k < text.len()
            invariant
                k <= text@.len(),
                all_digits == (text@.len() > 0 && forall|j: int| 0 <= j < k ==> 48 <= #[trigger] text@[j] <= 57),
                all_alnum == (text@.len() > 0 && forall|j: int| 0 <= j < k ==> #[trigger] alnum_value_spec(text@[j]) is Some),
            decreases text@.len() - k,
        {
            let c = text[k];
            if !(48 <= c && c <= 57) {
                all_digits = false;
            }
            if alnum_value(c).is_none() {
                all_alnum = false;
            }
            k = k + 1;
        }
        let mode = if all_digits {
            Mode::Numeric
        } else if all_alnum {
            Mode::Alphanumeric
        } else {
            Mode::Byte
        };
        let seg = Segment { mode, data: crate::segment::copy_bytes(text) };
        let segs = vec![seg];
        proof {
            assert(mode == text_mode(text@));
            lemma_fits_single(segs@, MicroVersion::M1, level);
            lemma_fits_single(segs@, MicroVersion::M2, level);
            lemma_fits_single(segs@, MicroVersion::M3, level);
            lemma_fits_single(segs@, MicroVersion::M4, level);
            assert(short_segs(segs@) == (text@.len() <= u32::MAX));
        }
        self.encode_into(segs.as_slice(), level, None, None)
    }

    /// Build a reproducible symbol from `segments` at error-correction `level`,
    /// choosing the smallest fitting version and the highest-scoring mask.
    pub fn build(&self, segments: Vec<Segment>, level: MicroEcLevel) -> (r: Result<Symbol, Error>)
        ensures
            r matches Ok(sym) ==> sym.symbology == Symbology::MicroQrCode && sym.segments@ == segments@ && (
            sym.meta matches SymbolMeta::MicroQr(meta) && meta.ec_level == level && ec_table(meta.version, level) is Some
                && meta.version == first_fit(segments@, level)),
            r is Ok <==> short_segs(segments@) && some_fit(segments@, level),
    {
        let (_, meta) = match self.encode_into(segments.as_slice(), level, None, None) {
            Ok(x) => x,
            Err(e) => {
                return Err(e);
            },
        };
        Ok(Symbol::new(Symbology::MicroQrCode, segments, SymbolMeta::MicroQr(meta)))
    }

    /// Build a symbol from ASCII digits as one numeric segment.
    pub fn build_numeric(&self, digits: &[u8], level: MicroEcLevel) -> (r: Result<Symbol, Error>)
        ensures
            r matches Ok(sym) ==> sym.symbology == Symbology::MicroQrCode && sym.segments@.len() == 1
                && sym.segments@[0].mode == Mode::Numeric && sym.segments@[0].data@ == digits@,
            r is Ok <==> digits@.len() <= u32::MAX && some_fit_one(Mode::Numeric, digits@, level),
            r matches Ok(sym) ==> sym.meta matches SymbolMeta::MicroQr(meta) && meta.ec_level == level
                && meta.version == first_fit_one(Mode::Numeric, digits@, level),
    {
        let seg = Segment::numeric(crate::segment::copy_bytes(digits));
        let segs = vec![seg];
        proof {
            lemma_fits_single(segs@, MicroVersion::M1, level);
            lemma_fits_single(segs@, MicroVersion::M2, level);
            lemma_fits_single(segs@, MicroVersion::M3, level);
            lemma_fits_single(segs@, MicroVersion::M4, level);
            assert(short_segs(segs@) == (digits@.len() <= u32::MAX));
        }
        self.build(segs, level)
    }

    /// Encode a Micro QR symbol exactly as its meta pins it.
    pub fn encode(&self, symbol: &Symbol) -> (r: Result<Encoding, Error>)
        ensures
            symbol.symbology != Symbology::MicroQrCode ==> r == Err::<Encoding, Error>(Error::InvalidParameter),
            r matches Ok(enc) ==> enc is Matrix,
            r is Ok <==> symbol.symbology == Symbology::MicroQrCode && match symbol.meta {
                SymbolMeta::MicroQr(m) => short_segs(symbol.segments@) && fits(symbol.segments@, m.version, m.ec_level),
                _ => false,
            },
    {
        if symbol.symbology != Symbology::MicroQrCode {
            return Err(Error::InvalidParameter);
        }
        let meta = match &symbol.meta {
            SymbolMeta::MicroQr(m) => m,
            _ => {
                return Err(Error::InvalidParameter);
            },
        };
        match self.encode_into(symbol.segments.as_slice(), meta.ec_level, Some(meta.version), Some(meta.mask)) {
            Ok((grid, _)) => Ok(Encoding::Matrix(grid)),
            Err(e) => Err(e),
        }
    }
}

} // verus!
