//! MSI Plessey ([`Symbology::MsiPlessey`]) and the original Plessey code
//! ([`Symbology::Plessey`]).
//!
//! MSI Plessey is numeric: each digit is four BCD bits (MSB first), each bit three
//! modules — `1` → `110`, `0` → `100` — framed by start `110` and stop `1001`. An
//! optional check scheme ([`MsiCheck`]) is appended before encoding.
//!
//! Plessey is hexadecimal (`0-9 A-F`): each digit is four bits, LSB first; each bit
//! is a bar/space pair (`0` → narrow bar + wide space, `1` → wide bar + narrow
//! space), followed by an 8-bit CRC (generator `x^8+x^6+x^5+x^4+x^2+1`).
use vstd::prelude::*;
use crate::error::Error;
use crate::output::{Encoding, LinearPattern, expand, positive_runs, widths, runs_of, run_of};
use crate::segment::{Segment, Mode, payload_of, copy_bytes};
use crate::symbol::{Symbol, SymbolMeta};
use crate::symbology::Symbology;
use crate::text::all_digits;

verus! {

/// Quiet-zone width in narrow modules on each side.
pub const QUIET_ZONE: usize = 10;

/// MSI Plessey check-digit scheme.
#[derive(Debug, Clone, Copy, PartialEq, Eq, Default, Structural)]
pub enum MsiCheck {
    /// No check digit.
    #[default]
    NoCheck,
    /// Luhn mod-10 (one digit).
    Mod10,
    /// IBM mod-11, weights 2..7 (one digit).
    Mod11,
    /// mod-10 applied twice (two digits).
    Mod1010,
    /// mod-11 then mod-10 (two digits).
    Mod1110,
}

/// Parameters required to re-encode an MSI Plessey / Plessey symbol identically.
#[derive(Debug, Clone, Copy, PartialEq, Eq, Default, Structural)]
pub struct MsiMeta {
    /// Check scheme (MSI only; ignored for Plessey, which always carries its CRC).
    pub check: MsiCheck,
}

// ---------- MSI check arithmetic ----------

/// Every byte is `0-9` or one of the six characters after `9` (`:;<=>?`), the
/// values a 4-bit MSI group can spell.
pub open spec fn msi_chars(s: Seq<u8>) -> bool {
    forall|i: int| 0 <= i < s.len() ==> 48 <= #[trigger] s[i] <= 63
}

/// Digits are MSI characters.
pub proof fn lemma_digits_msi(s: Seq<u8>)
    requires
        all_digits(s),
    ensures
        msi_chars(s),
{
    assert forall|i: int| 0 <= i < s.len() implies 48 <= #[trigger] s[i] <= 63 by {
        assert(48 <= s[i] <= 57);
    }
}

/// Luhn contribution of the digit `i` places from the right (rightmost doubled).
pub open spec fn luhn_term(c: u8, i: nat) -> int {
    let v = c - 48;
    if i % 2 == 0 {
        if 2 * v > 9 { 2 * v - 9 } else { 2 * v }
    } else {
        v as int
    }
}

/// Luhn sum of the last `i` digits of `s`.
pub open spec fn luhn_sum(s: Seq<u8>, i: nat) -> int
    decreases i,
{
    if i == 0 {
        0
    } else {
        luhn_sum(s, (i - 1) as nat) + luhn_term(s[s.len() - i], (i - 1) as nat)
    }
}

/// The Luhn mod-10 check digit of `s`.
pub open spec fn luhn_check(s: Seq<u8>) -> int {
    (10 - luhn_sum(s, s.len()) % 10) % 10
}

/// Luhn mod-10 check digit for ASCII `digits` (rightmost digit doubled).
pub fn msi_mod10(digits: &[u8]) -> (c: u8)
    requires
        all_digits(digits@),
        digits@.len() <= 0x01ff_ffff,
    ensures
        c == luhn_check(digits@),
{
    proof {
        lemma_digits_msi(digits@);
        lemma_digits_msi(Seq::<u8>::empty());
        assert(digits@ + Seq::<u8>::empty() =~= digits@);
    }
    mod10_split(digits, &[])
}

/// Luhn mod-10 check digit for the ASCII digit string `head` followed by `tail`.
fn mod10_split(head: &[u8], tail: &[u8]) -> (c: u8)
    requires
        msi_chars(head@),
        msi_chars(tail@),
        head@.len() + tail@.len() <= 0x01ff_ffff,
    ensures
        c == luhn_check(head@ + tail@),
        c < 10,
{
    let ghost s = head@ + tail@;
    let n = head.len() + tail.len();
    let mut sum: u32 = 0;
    let mut i: usize = 0;
    while i < n
        invariant
            i <= n,
            n == s.len(),
            n <= 0x01ff_ffff,
            s == head@ + tail@,
            msi_chars(head@),
            msi_chars(tail@),
            sum == luhn_sum(s, i as nat),
            sum <= 21 * i,
        decreases n - i,
    {
        let idx = n - 1 - i;
        let c = if idx < head.len() { head[idx] } else { tail[idx - head.len()] };
        proof {
            assert(s[idx as int] == c);
        }
        let mut v = (c - 48u8) as u32;
        if i % 2 == 0 {
            v = v * 2;
            if v > 9 {
                v = v - 9;
            }
        }
        sum = sum + v;
        i = i + 1;
    }
    ((10 - sum % 10) % 10) as u8
}

/// IBM mod-11 weight of the digit `i` places from the right (2..7 cycling).
pub open spec fn mod11_weight(i: nat) -> int {
    2 + (i % 6) as int
}

/// Weighted mod-11 sum of the last `i` digits.
pub open spec fn mod11_sum(s: Seq<u8>, i: nat) -> int
    decreases i,
{
    if i == 0 {
        0
    } else {
        mod11_sum(s, (i - 1) as nat) + (s[s.len() - i] - 48) * mod11_weight((i - 1) as nat)
    }
}

/// The IBM mod-11 check value of `s` (10 is not representable as a digit).
pub open spec fn mod11_check(s: Seq<u8>) -> int {
    (11 - mod11_sum(s, s.len()) % 11) % 11
}

/// IBM mod-11 check digit (weights 2..7 cycling from the right), or `None` if the
/// result is 10 (not representable as a single digit).
pub fn msi_mod11(digits: &[u8]) -> (r: Option<u8>)
    requires
        msi_chars(digits@),
        digits@.len() <= 0x01ff_ffff,
    ensures
        r is Some <==> mod11_check(digits@) < 10,
        r matches Some(c) ==> c == mod11_check(digits@),
{
    let n = digits.len();
    let mut sum: u32 = 0;
    let mut weight: u32 = 2;
    let mut i: usize = 0;
    while i < n
        invariant
            i <= n,
            n == digits@.len(),
            n <= 0x01ff_ffff,
            msi_chars(digits@),
            sum == mod11_sum(digits@, i as nat),
            weight == mod11_weight(i as nat),
            sum <= 105 * i,
        decreases n - i,
    {
        proof {
            assert(48 <= digits@[n - 1 - i] <= 63);
        }
        let v = (digits[n - 1 - i] - 48u8) as u32;
        assert(v * weight <= 105) by (nonlinear_arith)
            requires
                v <= 15,
                weight <= 7,
        ;
        sum = sum + v * weight;
        weight = if weight == 7 { 2 } else { weight + 1 };
        i = i + 1;
    }
    let c = (11 - sum % 11) % 11;
    if c < 10 { Some(c as u8) } else { None }
}

/// Number of check digits a scheme appends.
pub open spec fn check_len_spec(scheme: MsiCheck) -> nat {
    match scheme {
        MsiCheck::NoCheck => 0,
        MsiCheck::Mod10 | MsiCheck::Mod11 => 1,
        MsiCheck::Mod1010 | MsiCheck::Mod1110 => 2,
    }
}

/// Number of check digits a scheme appends.
fn check_len(scheme: MsiCheck) -> (n: usize)
    ensures
        n == check_len_spec(scheme),
{
    match scheme {
        MsiCheck::NoCheck => 0,
        MsiCheck::Mod10 | MsiCheck::Mod11 => 1,
        MsiCheck::Mod1010 | MsiCheck::Mod1110 => 2,
    }
}

/// The scheme can be applied to `data` (mod-11 must not come out as 10).
pub open spec fn check_ok(data: Seq<u8>, scheme: MsiCheck) -> bool {
    match scheme {
        MsiCheck::Mod11 | MsiCheck::Mod1110 => mod11_check(data) < 10,
        _ => true,
    }
}

/// The check digits a scheme appends to `data`.
pub open spec fn check_seq(data: Seq<u8>, scheme: MsiCheck) -> Seq<u8> {
    match scheme {
        MsiCheck::NoCheck => Seq::empty(),
        MsiCheck::Mod10 => seq![(48 + luhn_check(data)) as u8],
        MsiCheck::Mod11 => seq![(48 + mod11_check(data)) as u8],
        MsiCheck::Mod1010 => {
            let c1 = (48 + luhn_check(data)) as u8;
            seq![c1, (48 + luhn_check(data.push(c1))) as u8]
        },
        MsiCheck::Mod1110 => {
            let c1 = (48 + mod11_check(data)) as u8;
            seq![c1, (48 + luhn_check(data.push(c1))) as u8]
        },
    }
}

/// The ASCII check digits a scheme appends to `data`; only the first
/// [`check_len`] bytes of the returned array are meaningful.
fn check_digits(data: &[u8], scheme: MsiCheck) -> (r: Result<[u8; 2], Error>)
    requires
        msi_chars(data@),
        data@.len() <= 0x01ff_fff0,
    ensures
        r is Ok <==> check_ok(data@, scheme),
        r matches Ok(out) ==> out@.take(check_len_spec(scheme) as int) == check_seq(data@, scheme),
        r is Err ==> r == Err::<[u8; 2], Error>(Error::InvalidData),
{
    let mut out = [0u8; 2];
    match scheme {
        MsiCheck::NoCheck => {},
        MsiCheck::Mod10 => {
            proof {
                lemma_digits_msi(Seq::<u8>::empty());
            }
            out[0] = 48u8 + mod10_split(data, &[]);
            proof {
                assert(data@ + Seq::<u8>::empty() =~= data@);
            }
        },
        MsiCheck::Mod11 => {
            match msi_mod11(data) {
                Some(c) => {
                    out[0] = 48u8 + c;
                },
                None => {
                    return Err(Error::InvalidData);
                },
            }
        },
        MsiCheck::Mod1010 => {
            proof {
                lemma_digits_msi(Seq::<u8>::empty());
            }
            let c1 = 48u8 + mod10_split(data, &[]);
            proof {
                assert(data@ + Seq::<u8>::empty() =~= data@);
            }
            out[0] = c1;
            let first = [c1];
            proof {
                assert(msi_chars(first@));
            }
            out[1] = 48u8 + mod10_split(data, &first);
            proof {
                assert(data@ + first@ =~= data@.push(c1));
            }
        },
        MsiCheck::Mod1110 => {
            match msi_mod11(data) {
                Some(c) => {
                    let c1 = 48u8 + c;
                    out[0] = c1;
                    let first = [c1];
                    proof {
                        assert(msi_chars(first@));
                    }
            proof {
                assert(msi_chars(first@));
            }
                    out[1] = 48u8 + mod10_split(data, &first);
                    proof {
                        assert(data@ + first@ =~= data@.push(c1));
                    }
                },
                None => {
                    return Err(Error::InvalidData);
                },
            }
        },
    }
    proof {
        assert(out@.take(check_len_spec(scheme) as int) =~= check_seq(data@, scheme));
    }
    Ok(out)
}

/// The full digit string (data + check digits) for a scheme.
fn apply_check(data: &[u8], scheme: MsiCheck) -> (r: Result<Vec<u8>, Error>)
    requires
        msi_chars(data@),
        data@.len() <= 0x01ff_fff0,
    ensures
        r is Ok <==> check_ok(data@, scheme),
        r matches Ok(v) ==> v@ == data@ + check_seq(data@, scheme),
        r is Err ==> r == Err::<Vec<u8>, Error>(Error::InvalidData),
{
    let check = match check_digits(data, scheme) {
        Ok(c) => c,
        Err(e) => {
            return Err(e);
        },
    };
    let mut out = copy_bytes(data);
    let n = check_len(scheme);
    let mut i: usize = 0;
    while i < n
        invariant
            i <= n,
            n <= 2,
            out@ == data@ + check@.take(i as int),
        decreases n - i,
    {
        out.push(check[i]);
        i = i + 1;
        proof {
            assert(out@ =~= data@ + check@.take(i as int));
        }
    }
    Ok(out)
}

/// Validate that `digits` is a non-empty string of ASCII digits.
fn ensure_digits(digits: &[u8]) -> (r: Result<(), Error>)
    ensures
        r is Ok <==> digits@.len() > 0 && all_digits(digits@),
        r is Err ==> r == Err::<(), Error>(Error::InvalidData),
{
    if digits.len() == 0 {
        return Err(Error::InvalidData);
    }
    let mut i: usize = 0;
    while i < digits.len()
        invariant
            i <= digits@.len(),
            forall|j: int| 0 <= j < i ==> 48 <= #[trigger] digits@[j] <= 57,
        decreases digits@.len() - i,
    {
        if !(digits[i] >= 48u8 && digits[i] <= 57u8) {
            return Err(Error::InvalidData);
        }
        i = i + 1;
    }
    Ok(())
}


// ---------- shared helpers ----------

/// Push module booleans (`true` = bar).
fn push_bits(out: &mut LinearPattern, bits: &[bool])
    ensures
        final(out).modules@ == old(out).modules@ + bits@,
        final(out).quiet_zone == old(out).quiet_zone,
{
    let mut i: usize = 0;
    while i < bits.len()
        invariant
            i <= bits@.len(),
            out.modules@ == old(out).modules@ + bits@.take(i as int),
            out.quiet_zone == old(out).quiet_zone,
        decreases bits@.len() - i,
    {
        out.push_run(bits[i], 1);
        i = i + 1;
        proof {
            assert(run_of(bits@[i - 1], 1) =~= seq![bits@[i - 1]]);
            assert(out.modules@ =~= old(out).modules@ + bits@.take(i as int));
        }
    }
    proof {
        assert(bits@.take(bits@.len() as int) =~= bits@);
    }
}

/// Run-length encode `modules` into element widths, starting with a bar.
pub fn rle(modules: &[bool]) -> (r: Result<Vec<u32>, Error>)
    requires
        modules@.len() <= u32::MAX,
    ensures
        r is Ok <==> modules@.len() > 0 && modules@[0],
        r matches Ok(runs) ==> positive_runs(widths(runs@)) && expand(widths(runs@)) == modules@,
        r is Err ==> r == Err::<Vec<u32>, Error>(Error::Undecodable),
{
    if modules.len() == 0 || !modules[0] {
        return Err(Error::Undecodable);
    }
    Ok(runs_of(modules))
}

// ---------- MSI encoding ----------

/// The start pattern `110`.
pub open spec fn msi_start() -> Seq<bool> {
    seq![true, true, false]
}

/// The stop pattern `1001`.
pub open spec fn msi_stop() -> Seq<bool> {
    seq![true, false, false, true]
}

/// The modules of one bit: `1` → `110`, `0` → `100`.
pub open spec fn msi_bit_modules(one: bool) -> Seq<bool> {
    seq![true, one, false]
}

/// The twelve modules of one character, its four bits most significant first.
pub open spec fn msi_char_modules(c: u8) -> Seq<bool> {
    let v = (c - 48) as u8;
    msi_bit_modules((v >> 3u8) & 1u8 == 1u8) + msi_bit_modules((v >> 2u8) & 1u8 == 1u8)
        + msi_bit_modules((v >> 1u8) & 1u8 == 1u8) + msi_bit_modules(v & 1u8 == 1u8)
}

/// The modules of all characters, left to right.
pub open spec fn msi_body(s: Seq<u8>) -> Seq<bool>
    decreases s.len(),
{
    if s.len() == 0 {
        Seq::empty()
    } else {
        msi_body(s.drop_last()) + msi_char_modules(s.last())
    }
}

/// The modules of an MSI symbol drawing the characters `s` (check digits included).
pub open spec fn msi_modules(s: Seq<u8>) -> Seq<bool> {
    msi_start() + msi_body(s) + msi_stop()
}

/// The body of `n` characters has `12·n` modules.
proof fn lemma_msi_body_len(s: Seq<u8>)
    ensures
        msi_body(s).len() == 12 * s.len(),
    decreases s.len(),
{
    if s.len() > 0 {
        lemma_msi_body_len(s.drop_last());
    }
}

/// Emit the twelve modules of one character.
fn msi_char(out: &mut LinearPattern, c: u8)
    requires
        48 <= c <= 63,
    ensures
        final(out).modules@ == old(out).modules@ + msi_char_modules(c),
        final(out).quiet_zone == old(out).quiet_zone,
{
    let v = c - 48u8;
    let mut bit: u8 = 4;
    let ghost mut acc: Seq<bool> = Seq::empty();
    while bit > 0
        invariant
            bit <= 4,
            v == c - 48,
            out.modules@ == old(out).modules@ + acc,
            out.quiet_zone == old(out).quiet_zone,
            bit == 4 ==> acc == Seq::<bool>::empty(),
            bit == 3 ==> acc == msi_bit_modules((v >> 3u8) & 1u8 == 1u8),
            bit == 2 ==> acc == msi_bit_modules((v >> 3u8) & 1u8 == 1u8) + msi_bit_modules((v >> 2u8) & 1u8 == 1u8),
            bit == 1 ==> acc == msi_bit_modules((v >> 3u8) & 1u8 == 1u8) + msi_bit_modules((v >> 2u8) & 1u8 == 1u8)
                + msi_bit_modules((v >> 1u8) & 1u8 == 1u8),
            bit == 0 ==> acc == msi_char_modules(c),
        decreases bit,
    {
        bit = bit - 1;
        let one = (v >> bit) & 1 == 1;
        let triple = [true, one, false];
        push_bits(out, &triple);
        proof {
            assert(triple@ =~= msi_bit_modules(one));
            acc = acc + msi_bit_modules(one);
            assert(v >> 0u8 == v) by (bit_vector);
        }
    }
}

/// The body of a concatenation is the concatenation of the bodies.
proof fn lemma_msi_body_append(a: Seq<u8>, b: Seq<u8>)
    ensures
        msi_body(a + b) == msi_body(a) + msi_body(b),
    decreases b.len(),
{
    if b.len() == 0 {
        assert(a + b =~= a);
        assert(msi_body(b) =~= Seq::<bool>::empty());
        assert(msi_body(a) + msi_body(b) =~= msi_body(a));
    } else {
        lemma_msi_body_append(a, b.drop_last());
        assert((a + b).drop_last() =~= a + b.drop_last());
        assert((a + b).last() == b.last());
        assert(msi_body(a) + msi_body(b) =~= msi_body(a) + msi_body(b.drop_last()) + msi_char_modules(b.last()));
    }
}

/// Modules drawn by the MSI encoder for the characters `ds` under `scheme`: valid
/// characters, a representable check, and at least one character drawn.
pub open spec fn msi_premise(modules: Seq<bool>, ds: Seq<u8>, scheme: MsiCheck) -> bool {
    &&& msi_chars(ds)
    &&& check_ok(ds, scheme)
    &&& (ds + check_seq(ds, scheme)).len() >= 1
    &&& modules == msi_modules(ds + check_seq(ds, scheme))
}

/// A character's twelve modules determine the character.
proof fn lemma_char_modules_injective(c1: u8, c2: u8)
    requires
        48 <= c1 <= 63,
        48 <= c2 <= 63,
        msi_char_modules(c1) == msi_char_modules(c2),
    ensures
        c1 == c2,
{
    let v1 = (c1 - 48) as u8;
    let v2 = (c2 - 48) as u8;
    let m1 = msi_char_modules(c1);
    let m2 = msi_char_modules(c2);
    assert(m1[1] == ((v1 >> 3u8) & 1u8 == 1u8) && m1[4] == ((v1 >> 2u8) & 1u8 == 1u8) && m1[7] == ((v1 >> 1u8) & 1u8
        == 1u8) && m1[10] == (v1 & 1u8 == 1u8));
    assert(m2[1] == ((v2 >> 3u8) & 1u8 == 1u8) && m2[4] == ((v2 >> 2u8) & 1u8 == 1u8) && m2[7] == ((v2 >> 1u8) & 1u8
        == 1u8) && m2[10] == (v2 & 1u8 == 1u8));
    assert(v1 == v2) by (bit_vector)
        requires
            v1 < 16,
            v2 < 16,
            ((v1 >> 3u8) & 1u8 == 1u8) == ((v2 >> 3u8) & 1u8 == 1u8),
            ((v1 >> 2u8) & 1u8 == 1u8) == ((v2 >> 2u8) & 1u8 == 1u8),
            ((v1 >> 1u8) & 1u8 == 1u8) == ((v2 >> 1u8) & 1u8 == 1u8),
            (v1 & 1u8 == 1u8) == (v2 & 1u8 == 1u8),
    ;
}

/// The body determines the characters.
proof fn lemma_msi_body_injective(s1: Seq<u8>, s2: Seq<u8>)
    requires
        msi_chars(s1),
        msi_chars(s2),
        msi_body(s1) == msi_body(s2),
    ensures
        s1 == s2,
    decreases s1.len(),
{
    lemma_msi_body_len(s1);
    lemma_msi_body_len(s2);
    if s1.len() == 0 {
        assert(s1 =~= s2);
    } else {
        let p1 = s1.drop_last();
        let p2 = s2.drop_last();
        lemma_msi_body_len(p1);
        lemma_msi_body_len(p2);
        let b = msi_body(s1);
        assert(b.subrange(0, 12 * (p1.len() as int)) =~= msi_body(p1));
        assert(b.subrange(0, 12 * (p1.len() as int)) =~= msi_body(p2));
        assert(b.subrange(12 * (p1.len() as int), b.len() as int) =~= msi_char_modules(s1.last()));
        assert(b.subrange(12 * (p1.len() as int), b.len() as int) =~= msi_char_modules(s2.last()));
        assert(msi_chars(p1));
        assert(msi_chars(p2));
        lemma_msi_body_injective(p1, p2);
        assert(48 <= s1[s1.len() - 1] <= 63);
        assert(48 <= s2[s2.len() - 1] <= 63);
        lemma_char_modules_injective(s1.last(), s2.last());
        assert(s1 =~= p1.push(s1.last()));
        assert(s2 =~= p2.push(s2.last()));
    }
}

/// Character `d` of `s` occupies modules `12·d .. 12·d + 12` of the body.
proof fn lemma_msi_body_char(s: Seq<u8>, d: int)
    requires
        0 <= d < s.len(),
    ensures
        msi_body(s).subrange(12 * d, 12 * d + 12) == msi_char_modules(s[d]),
{
    let a = s.take(d);
    let rest = s.skip(d);
    assert(s =~= a + rest);
    lemma_msi_body_append(a, rest);
    lemma_msi_body_len(a);
    let one = seq![s[d]];
    let tail = s.skip(d + 1);
    assert(rest =~= one + tail);
    lemma_msi_body_append(one, tail);
    assert(one.drop_last() =~= Seq::<u8>::empty());
    assert(msi_body(Seq::<u8>::empty()) == Seq::<bool>::empty());
    assert(msi_body(one) == msi_body(one.drop_last()) + msi_char_modules(one.last()));
    assert(msi_body(one) =~= msi_char_modules(s[d]));
    assert(msi_body(s).subrange(12 * d, 12 * d + 12) =~= msi_char_modules(s[d]));
}

/// With its check digits, a valid character string is an MSI character string.
proof fn lemma_with_check_chars(ds: Seq<u8>, scheme: MsiCheck)
    requires
        msi_chars(ds),
        check_ok(ds, scheme),
    ensures
        msi_chars(ds + check_seq(ds, scheme)),
{
    lemma_check_chars(ds, scheme);
    let t = ds + check_seq(ds, scheme);
    assert forall|i: int| 0 <= i < t.len() implies 48 <= #[trigger] t[i] <= 63 by {
        if i < ds.len() {
            assert(t[i] == ds[i]);
        } else {
            assert(t[i] == check_seq(ds, scheme)[i - ds.len()]);
        }
    }
}

/// The modules of valid characters with their check digits determine the characters.
proof fn lemma_premise_unique(ds: Seq<u8>, v: Seq<u8>, scheme: MsiCheck)
    requires
        msi_chars(ds),
        check_ok(ds, scheme),
        msi_chars(v),
        check_ok(v, scheme),
        msi_modules(ds + check_seq(ds, scheme)) == msi_modules(v + check_seq(v, scheme)),
    ensures
        ds == v,
{
    lemma_with_check_chars(ds, scheme);
    lemma_with_check_chars(v, scheme);
    let t1 = ds + check_seq(ds, scheme);
    let t2 = v + check_seq(v, scheme);
    lemma_msi_body_len(t1);
    lemma_msi_body_len(t2);
    assert(msi_modules(t1).subrange(3, 3 + 12 * (t1.len() as int)) =~= msi_body(t1));
    assert(msi_modules(t2).subrange(3, 3 + 12 * (t2.len() as int)) =~= msi_body(t2));
    lemma_msi_body_injective(t1, t2);
    lemma_check_seq_len(ds, scheme);
    lemma_check_seq_len(v, scheme);
    assert(ds =~= t1.take(ds.len() as int));
    assert(v =~= t2.take(v.len() as int));
}

/// In the modules of MSI characters `big`, bit triple `b` of character `d` is a bit
/// pattern.
proof fn lemma_triple_is_bit(modules: Seq<bool>, big: Seq<u8>, n: int, d: int, b: int)
    requires
        big.len() == n,
        msi_chars(big),
        0 <= d < n,
        0 <= b < 4,
        modules.len() == 7 + 12 * n,
        modules.subrange(3, 3 + 12 * n) == msi_body(big),
    ensures
        exists|one: bool| modules.subrange(3 + 12 * d + 3 * b, 3 + 12 * d + 3 * b + 3) == msi_bit_modules(one),
{
    lemma_msi_body_char(big, d);
    let cm = msi_char_modules(big[d]);
    assert(cm[0] && !cm[2] && cm[3] && !cm[5] && cm[6] && !cm[8] && cm[9] && !cm[11]);
    let base = 3 + 12 * d + 3 * b;
    let body = msi_body(big);
    assert(modules[base] == cm[3 * b]) by {
        assert(modules[base] == modules.subrange(3, 3 + 12 * n)[12 * d + 3 * b]);
        assert(body[12 * d + 3 * b] == body.subrange(12 * d, 12 * d + 12)[3 * b]);
    }
    assert(modules[base + 2] == cm[3 * b + 2]) by {
        assert(modules[base + 2] == modules.subrange(3, 3 + 12 * n)[12 * d + 3 * b + 2]);
        assert(body[12 * d + 3 * b + 2] == body.subrange(12 * d, 12 * d + 12)[3 * b + 2]);
    }
    assert(modules.subrange(base, base + 3) =~= msi_bit_modules(modules[base + 1]));
}

/// A scheme appends as many check digits as `check_len_spec` says.
proof fn lemma_check_seq_len(data: Seq<u8>, scheme: MsiCheck)
    ensures
        check_seq(data, scheme).len() == check_len_spec(scheme),
{
}

/// Emit the modules of the validated characters `s`.
fn msi_chars_out(out: &mut LinearPattern, s: &[u8])
    requires
        msi_chars(s@),
    ensures
        final(out).modules@ == old(out).modules@ + msi_body(s@),
        final(out).quiet_zone == old(out).quiet_zone,
{
    let mut i: usize = 0;
    while i < s.len()
        invariant
            i <= s@.len(),
            msi_chars(s@),
            out.modules@ == old(out).modules@ + msi_body(s@.take(i as int)),
            out.quiet_zone == old(out).quiet_zone,
        decreases s@.len() - i,
    {
        let c = s[i];
        proof {
            assert(s@.take(i + 1).drop_last() =~= s@.take(i as int));
        }
        msi_char(out, c);
        i = i + 1;
    }
    proof {
        assert(s@.take(s@.len() as int) =~= s@);
    }
}

/// Emit an MSI symbol for validated characters `digits` followed by the `check` digits.
fn msi_encode(out: &mut LinearPattern, digits: &[u8], check: &[u8])
    requires
        msi_chars(digits@),
        msi_chars(check@),
    ensures
        final(out).modules@ == old(out).modules@ + msi_modules(digits@ + check@),
        final(out).quiet_zone == old(out).quiet_zone,
{
    push_bits(out, &[true, true, false]);
    proof {
        assert(seq![true, true, false] =~= msi_start());
    }
    msi_chars_out(out, digits);
    msi_chars_out(out, check);
    push_bits(out, &[true, false, false, true]);
    proof {
        lemma_msi_body_append(digits@, check@);
        assert(seq![true, false, false, true] =~= msi_stop());
        assert(final(out).modules@ =~= old(out).modules@ + msi_modules(digits@ + check@));
    }
}

/// The three modules at `base` spell bit `one`.
fn read_triple(modules: &[bool], base: usize) -> (r: Option<u8>)
    requires
        base + 3 <= modules@.len(),
    ensures
        r matches Some(b) ==> b <= 1 && modules@.subrange(base as int, base + 3) == msi_bit_modules(b == 1),
        r is None ==> forall|one: bool| modules@.subrange(base as int, base + 3) != msi_bit_modules(one),
{
    let t0 = modules[base];
    let t1 = modules[base + 1];
    let t2 = modules[base + 2];
    if t0 && t1 && !t2 {
        proof {
            assert(modules@.subrange(base as int, base + 3) =~= msi_bit_modules(true));
        }
        Some(1)
    } else if t0 && !t1 && !t2 {
        proof {
            assert(modules@.subrange(base as int, base + 3) =~= msi_bit_modules(false));
        }
        Some(0)
    } else {
        proof {
            assert forall|one: bool| modules@.subrange(base as int, base + 3) != msi_bit_modules(one) by {
                if modules@.subrange(base as int, base + 3) == msi_bit_modules(one) {
                    assert(modules@.subrange(base as int, base + 3)[0] == t0);
                    assert(modules@.subrange(base as int, base + 3)[1] == t1);
                    assert(modules@.subrange(base as int, base + 3)[2] == t2);
                }
            }
        }
        None
    }
}

/// Decode MSI modules, verifying and stripping the check digits of `scheme`.
#[verifier::rlimit(40)]
fn msi_decode(modules: &[bool], scheme: MsiCheck) -> (r: Result<Vec<u8>, Error>)
    requires
        modules@.len() <= 0x0fff_ffff,
    ensures
        r matches Ok(ds) ==> msi_chars(ds@) && check_ok(ds@, scheme)
            && modules@ == msi_modules(ds@ + check_seq(ds@, scheme)),
        r is Err ==> r == Err::<Vec<u8>, Error>(Error::Undecodable) || r == Err::<Vec<u8>, Error>(Error::InvalidData),
        forall|ds: Seq<u8>| #[trigger] msi_premise(modules@, ds, scheme) ==> (r matches Ok(v) && v@ == ds),
{
    let ghost ds0 = choose|ds: Seq<u8>| msi_premise(modules@, ds, scheme);
    let ghost pr = msi_premise(modules@, ds0, scheme);
    let ghost big_s = ds0 + check_seq(ds0, scheme);
    proof {
        if pr {
            lemma_msi_body_len(big_s);
            lemma_with_check_chars(ds0, scheme);
            assert(modules@.subrange(3, 3 + 12 * (big_s.len() as int)) =~= msi_body(big_s));
            assert(modules@[0] && modules@[1] && !modules@[2]);
            assert(modules@.subrange(3 + 12 * (big_s.len() as int), modules@.len() as int) =~= msi_stop());
        }
    }
    // start(3) + n*12 + stop(4)
    let len = modules.len();
    if len < 3 + 12 + 4 || (len - 7) % 12 != 0 {
        return Err(Error::Undecodable);
    }
    if !(modules[0] && modules[1] && !modules[2]) {
        return Err(Error::Undecodable);
    }
    let stop_at = len - 4;
    if !modules[stop_at] || modules[stop_at + 1] || modules[stop_at + 2] || !modules[stop_at + 3] {
        proof {
            if pr {
                assert(modules@.subrange(stop_at as int, len as int)[0] == modules@[stop_at as int]);
                assert(modules@.subrange(stop_at as int, len as int)[1] == modules@[stop_at + 1]);
                assert(modules@.subrange(stop_at as int, len as int)[2] == modules@[stop_at + 2]);
                assert(modules@.subrange(stop_at as int, len as int)[3] == modules@[stop_at + 3]);
            }
        }
        return Err(Error::Undecodable);
    }
    let n = (len - 7) / 12;
    let mut digits: Vec<u8> = Vec::new();
    let mut d: usize = 0;
    while d < n
        invariant
            d <= n,
            len == modules@.len(),
            len == 7 + 12 * n,
            digits@.len() == d,
            msi_chars(digits@),
            modules@.subrange(3, 3 + 12 * d) == msi_body(digits@),
            pr ==> big_s.len() == n && msi_chars(big_s) && modules@.subrange(3, 3 + 12 * n) == msi_body(big_s),
                (exists|ds: Seq<u8>| msi_premise(modules@, ds, scheme)) ==> pr,
        decreases n - d,
    {
        let mut value: u8 = 0;
        let mut b: usize = 0;
        let ghost mut acc: Seq<bool> = Seq::empty();
        assert((1u8 << 0u8) == 1u8) by (bit_vector);
        while b < 4
            invariant
                b <= 4,
                d < n,
                len == modules@.len(),
                len == 7 + 12 * n,
                value < (1u8 << (b as u8)),
                modules@.subrange(3 + 12 * d, 3 + 12 * d + 3 * b) == acc,
                pr ==> big_s.len() == n && msi_chars(big_s) && modules@.subrange(3, 3 + 12 * n) == msi_body(big_s),
                (exists|ds: Seq<u8>| msi_premise(modules@, ds, scheme)) ==> pr,
                b == 0 ==> acc == Seq::<bool>::empty(),
                b == 1 ==> acc == msi_bit_modules((value >> 0u8) & 1u8 == 1u8),
                b == 2 ==> acc == msi_bit_modules((value >> 1u8) & 1u8 == 1u8) + msi_bit_modules((value >> 0u8) & 1u8 == 1u8),
                b == 3 ==> acc == msi_bit_modules((value >> 2u8) & 1u8 == 1u8) + msi_bit_modules((value >> 1u8) & 1u8 == 1u8)
                    + msi_bit_modules((value >> 0u8) & 1u8 == 1u8),
                b == 4 ==> acc == msi_bit_modules((value >> 3u8) & 1u8 == 1u8) + msi_bit_modules((value >> 2u8) & 1u8 == 1u8)
                    + msi_bit_modules((value >> 1u8) & 1u8 == 1u8) + msi_bit_modules((value >> 0u8) & 1u8 == 1u8),
            decreases 4 - b,
        {
            let base = 3 + d * 12 + b * 3;
            let one = match read_triple(modules, base) {
                Some(x) => x,
                None => {
                    proof {
                        if pr {
                            lemma_triple_is_bit(modules@, big_s, n as int, d as int, b as int);
                        }
                    }
                    return Err(Error::Undecodable);
                },
            };
            let old_value = value;
            value = (value << 1) | one;
            proof {
                let bb = b as u8;
                assert(old_value < (1u8 << bb));
                assert((old_value << 1u8) | one == value);
                assert(bb < 4 && old_value < (1u8 << bb) && one <= 1 ==> ((old_value << 1u8) | one) < (1u8 << (bb + 1))
                    && ((old_value << 1u8) | one) & 1u8 == one
                    && (((old_value << 1u8) | one) >> 1u8) == old_value) by (bit_vector);
                assert(((value >> 0u8) & 1u8 == 1u8) == (one == 1)) by (bit_vector)
                    requires
                        value == (old_value << 1u8) | one,
                        one <= 1,
                ;
                assert(((value >> 1u8) & 1u8) == ((old_value >> 0u8) & 1u8)) by (bit_vector)
                    requires
                        value == (old_value << 1u8) | one,
                        one <= 1,
                ;
                assert(((value >> 2u8) & 1u8) == ((old_value >> 1u8) & 1u8)) by (bit_vector)
                    requires
                        value == (old_value << 1u8) | one,
                        one <= 1,
                ;
                assert(((value >> 3u8) & 1u8) == ((old_value >> 2u8) & 1u8)) by (bit_vector)
                    requires
                        value == (old_value << 1u8) | one,
                        one <= 1,
                ;
                assert(modules@.subrange(3 + 12 * d, 3 + 12 * d + 3 * (b + 1))
                    =~= modules@.subrange(3 + 12 * d, 3 + 12 * d + 3 * b) + modules@.subrange(base as int, base + 3));
                acc = acc + msi_bit_modules(one == 1);
            }
            b = b + 1;
        }
        assert(value < 16) by {
            assert((1u8 << 4u8) == 16) by (bit_vector);
        }
        let c = 48u8 + value;
        let ghost prev = digits@;
        digits.push(c);
        proof {
            assert(digits@.drop_last() =~= prev);
            assert(digits@.last() == c);
            assert((c - 48) as u8 == value);
            assert(value >> 0u8 == value) by (bit_vector);
            assert(acc =~= msi_char_modules(c));
            assert((c - 48) as u8 == value);
            assert(msi_body(digits@) == msi_body(digits@.drop_last()) + msi_char_modules(c));
            assert(modules@.subrange(3, 3 + 12 * (d + 1))
                =~= modules@.subrange(3, 3 + 12 * d) + modules@.subrange(3 + 12 * d, 3 + 12 * d + 12));
        }
        d = d + 1;
    }
    // Verify and strip check digits.
    proof {
        if pr {
            assert(modules@.subrange(3, 3 + 12 * n) == msi_body(digits@));
            lemma_msi_body_injective(digits@, big_s);
            lemma_check_seq_len(ds0, scheme);
        }
    }
    let clen = check_len(scheme);
    if digits.len() < clen {
        return Err(Error::Undecodable);
    }
    let data_len = digits.len() - clen;
    let data = crate::codes::msi::prefix(digits.as_slice(), data_len);
    proof {
        if pr {
            assert(data@ =~= ds0);
        }
    }
    proof {
        assert forall|i: int| 0 <= i < data@.len() implies 48 <= #[trigger] data@[i] <= 63 by {
            assert(data@[i] == digits@[i]);
        }
    }
    let expected = match apply_check(data.as_slice(), scheme) {
        Ok(e) => e,
        Err(e) => {
            return Err(e);
        },
    };
    if !bytes_eq(expected.as_slice(), digits.as_slice()) {
        return Err(Error::Undecodable);
    }
    proof {
        assert(modules@ =~= msi_start() + modules@.subrange(3, 3 + 12 * n) + modules@.subrange(len - 4, len as int));
        assert(modules@.subrange(len - 4, len as int) =~= msi_stop());
        assert forall|ds: Seq<u8>| #[trigger] msi_premise(modules@, ds, scheme) implies data@ == ds by {
            lemma_premise_unique(ds, data@, scheme);
        }
    }
    Ok(data)
}

/// The first `n` bytes of `s`.
fn prefix(s: &[u8], n: usize) -> (v: Vec<u8>)
    requires
        n <= s@.len(),
    ensures
        v@ == s@.take(n as int),
{
    let mut v: Vec<u8> = Vec::new();
    let mut i: usize = 0;
    while i < n
        invariant
            i <= n,
            n <= s@.len(),
            v@ == s@.take(i as int),
        decreases n - i,
    {
        v.push(s[i]);
        i = i + 1;
        proof {
            assert(v@ =~= s@.take(i as int));
        }
    }
    v
}

/// Byte-wise equality.
fn bytes_eq(a: &[u8], b: &[u8]) -> (r: bool)
    ensures
        r == (a@ == b@),
{
    if a.len() != b.len() {
        return false;
    }
    let mut i: usize = 0;
    while i < a.len()
        invariant
            i <= a@.len(),
            a@.len() == b@.len(),
            forall|j: int| 0 <= j < i ==> a@[j] == b@[j],
        decreases a@.len() - i,
    {
        if a[i] != b[i] {
            return false;
        }
        i = i + 1;
    }
    proof {
        assert(a@ =~= b@);
    }
    true
}


// ---------- Plessey ----------

/// `c` is a Plessey digit: `0-9` or `A-F`.
pub open spec fn is_hex(c: u8) -> bool {
    (48 <= c <= 57) || (65 <= c <= 70)
}

/// Every byte is a Plessey digit.
pub open spec fn all_hex(s: Seq<u8>) -> bool {
    forall|i: int| 0 <= i < s.len() ==> is_hex(#[trigger] s[i])
}

/// The value `0..16` of a Plessey digit.
pub open spec fn hex_val(c: u8) -> int {
    if c <= 57 { c - 48 } else { c - 55 }
}

/// The four bits of value `v`, least significant first.
pub open spec fn nibble_bits(v: int) -> Seq<u8> {
    seq![(v % 2) as u8, ((v / 2) % 2) as u8, ((v / 4) % 2) as u8, ((v / 8) % 2) as u8]
}

/// The data bits of the Plessey digits `s`, four per digit, least significant first.
pub open spec fn plessey_bits_spec(s: Seq<u8>) -> Seq<u8>
    decreases s.len(),
{
    if s.len() == 0 {
        Seq::empty()
    } else {
        plessey_bits_spec(s.drop_last()) + nibble_bits(hex_val(s.last()))
    }
}

/// The CRC generator `x^8+x^6+x^5+x^4+x^2+1`, highest power first.
pub open spec fn plessey_grid() -> Seq<u8> {
    seq![1u8, 1, 1, 1, 0, 1, 0, 0, 1]
}

/// One step of polynomial long division over GF(2): if the bit at `p` is set,
/// subtract (xor) the generator aligned at `p`.
pub open spec fn div_step(w: Seq<u8>, p: int) -> Seq<u8> {
    if w[p] == 1 {
        Seq::new(w.len(), |j: int| if p <= j < p + 9 { ((w[j] + plessey_grid()[j - p]) % 2) as u8 } else { w[j] })
    } else {
        w
    }
}

/// Long division steps at positions `0..q`, in order.
pub open spec fn div_upto(w: Seq<u8>, q: int) -> Seq<u8>
    decreases q,
{
    if q <= 0 {
        w
    } else {
        div_step(div_upto(w, q - 1), q - 1)
    }
}

/// Division steps keep the length of the working copy.
proof fn lemma_div_len(w: Seq<u8>, q: int)
    ensures
        div_upto(w, q).len() == w.len(),
    decreases q,
{
    if q > 0 {
        lemma_div_len(w, q - 1);
    }
}

/// The eight CRC bits of `bits`: the remainder of `bits · x^8` divided by the generator.
pub open spec fn plessey_crc_spec(bits: Seq<u8>) -> Seq<u8> {
    div_upto(bits + Seq::new(8nat, |_i: int| 0u8), bits.len() as int).subrange(bits.len() as int, bits.len() + 8int)
}

/// Plessey start element widths.
pub open spec fn plessey_start() -> Seq<int> {
    seq![3, 1, 3, 1, 1, 3, 3, 1]
}

/// Plessey stop element widths.
pub open spec fn plessey_stop() -> Seq<int> {
    seq![3, 3, 1, 3, 1, 1, 3, 1, 3]
}

/// Widths of one bit: `0` → narrow bar, wide space; `1` → wide bar, narrow space.
pub open spec fn bit_pair(b: u8) -> Seq<int> {
    if b == 1 { seq![3, 1] } else { seq![1, 3] }
}

/// Widths of a bit stream.
pub open spec fn pairs_of(bits: Seq<u8>) -> Seq<int>
    decreases bits.len(),
{
    if bits.len() == 0 {
        Seq::empty()
    } else {
        pairs_of(bits.drop_last()) + bit_pair(bits.last())
    }
}

/// All element widths of the Plessey symbol for digits `s`.
pub open spec fn plessey_widths(s: Seq<u8>) -> Seq<int> {
    let b = plessey_bits_spec(s);
    plessey_start() + pairs_of(b + plessey_crc_spec(b)) + plessey_stop()
}

/// The modules of the Plessey symbol for digits `s`.
pub open spec fn plessey_modules(s: Seq<u8>) -> Seq<bool> {
    expand(plessey_widths(s))
}

/// Wide (`true`) or narrow class of each width.
pub open spec fn classes(ws: Seq<int>) -> Seq<bool> {
    ws.map_values(|w: int| w > 1)
}

/// Value of a Plessey hex digit.
fn hex_value(c: u8) -> (r: Result<u8, Error>)
    ensures
        r matches Ok(v) ==> is_hex(c) && v == hex_val(c) && v < 16,
        r is Err ==> !is_hex(c) && r == Err::<u8, Error>(Error::InvalidData),
{
    if 48 <= c && c <= 57 {
        Ok(c - 48)
    } else if 65 <= c && c <= 70 {
        Ok(c - 55)
    } else {
        Err(Error::InvalidData)
    }
}

/// The Plessey digit of value `v`.
fn hex_char(v: u8) -> (c: u8)
    requires
        v < 16,
    ensures
        is_hex(c),
        hex_val(c) == v,
{
    if v < 10 { 48 + v } else { 65 + (v - 10) }
}

/// The data bits of validated Plessey digits.
pub fn plessey_bits(digits: &[u8]) -> (bits: Vec<u8>)
    requires
        all_hex(digits@),
    ensures
        bits@ == plessey_bits_spec(digits@),
{
    let mut bits: Vec<u8> = Vec::new();
    let mut i: usize = 0;
    while i < digits.len()
        invariant
            i <= digits@.len(),
            all_hex(digits@),
            bits@ == plessey_bits_spec(digits@.take(i as int)),
        decreases digits@.len() - i,
    {
        let c = digits[i];
        assert(is_hex(digits@[i as int]));
        let v = if c <= 57 { c - 48 } else { c - 55 };
        bits.push(v % 2);
        bits.push((v / 2) % 2);
        bits.push((v / 4) % 2);
        bits.push((v / 8) % 2);
        proof {
            assert(digits@.take(i + 1).drop_last() =~= digits@.take(i as int));
            assert(bits@ =~= plessey_bits_spec(digits@.take(i + 1)));
        }
        i = i + 1;
    }
    proof {
        assert(digits@.take(digits@.len() as int) =~= digits@);
    }
    bits
}

/// The eight CRC bits of a bit stream, by long division over a working copy.
pub fn plessey_crc(bits: &[u8]) -> (crc: Vec<u8>)
    requires
        bits@.len() + 9 <= usize::MAX,
    ensures
        crc@ == plessey_crc_spec(bits@),
        crc@.len() == 8,
{
    let grid: [u8; 9] = [1, 1, 1, 1, 0, 1, 0, 0, 1];
    let n = bits.len();
    let mut work: Vec<u8> = Vec::new();
    let mut i: usize = 0;
    while i < n
        invariant
            i <= n,
            n == bits@.len(),
            work@ == bits@.take(i as int),
        decreases n - i,
    {
        work.push(bits[i]);
        i = i + 1;
        proof {
            assert(work@ =~= bits@.take(i as int));
        }
    }
    let mut z: usize = 0;
    while z < 8
        invariant
            z <= 8,
            n == bits@.len(),
            work@ == bits@ + Seq::new(z as nat, |_i: int| 0u8),
        decreases 8 - z,
    {
        work.push(0);
        z = z + 1;
        proof {
            assert(work@ =~= bits@ + Seq::new(z as nat, |_i: int| 0u8));
        }
    }
    let ghost init = work@;
    proof {
        assert(grid@ =~= plessey_grid());
        assert(bits@.take(n as int) =~= bits@);
    }
    let mut p: usize = 0;
    while p < n
        invariant
            p <= n,
            n == bits@.len(),
            init.len() == n + 8,
            grid@ == plessey_grid(),
            work@ == div_upto(init, p as int),
            work@.len() == n + 8,
            n + 9 <= usize::MAX,
        decreases n - p,
    {
        let ghost before = work@;
        if work[p] == 1 {
            let mut j: usize = 0;
            while j < 9
                invariant
                    j <= 9,
                    p < n,
                    n + 9 <= usize::MAX,
                    before.len() == n + 8,
                    before[p as int] == 1,
                    grid@ == plessey_grid(),
                    work@.len() == before.len(),
                    forall|k: int| 0 <= k < work@.len() ==> #[trigger] work@[k] == (if p <= k < p + j {
                        ((before[k] + plessey_grid()[k - p]) % 2) as u8
                    } else {
                        before[k]
                    }),
                decreases 9 - j,
            {
                let cur = work[p + j];
                let g = grid[j];
                proof {
                    assert(cur == before[p + j]);
                    assert(((cur % 2 + g) % 2) == (cur + g) % 2) by (nonlinear_arith);
                }
                work.set(p + j, ((cur % 2 + g) % 2));
                j = j + 1;
            }
            proof {
                assert(work@ =~= div_step(before, p as int));
            }
        }
        p = p + 1;
        proof {
            lemma_div_len(init, p as int);
        }
    }
    let mut crc: Vec<u8> = Vec::new();
    let mut k: usize = 0;
    while k < 8
        invariant
            k <= 8,
            n == bits@.len(),
            work@.len() == n + 8,
            n + 9 <= usize::MAX,
            crc@ == work@.subrange(n as int, n + k),
        decreases 8 - k,
    {
        crc.push(work[n + k]);
        k = k + 1;
        proof {
            assert(crc@ =~= work@.subrange(n as int, n + k));
        }
    }
    crc
}


/// Widths of a concatenation of bit streams.
proof fn lemma_pairs_append(a: Seq<u8>, b: Seq<u8>)
    ensures
        pairs_of(a + b) == pairs_of(a) + pairs_of(b),
    decreases b.len(),
{
    if b.len() == 0 {
        assert(a + b =~= a);
        assert(pairs_of(a) + pairs_of(b) =~= pairs_of(a));
    } else {
        lemma_pairs_append(a, b.drop_last());
        assert((a + b).drop_last() =~= a + b.drop_last());
        assert(pairs_of(a) + pairs_of(b) =~= pairs_of(a) + pairs_of(b.drop_last()) + bit_pair(b.last()));
    }
}

/// Widths of a bit stream come in pairs.
proof fn lemma_pairs_len(b: Seq<u8>)
    ensures
        pairs_of(b).len() == 2 * b.len(),
    decreases b.len(),
{
    if b.len() > 0 {
        lemma_pairs_len(b.drop_last());
    }
}

/// One data/CRC bit → its bar/space widths (`0` → 1,3; `1` → 3,1).
fn bit_widths(bit: u8) -> (w: [u32; 2])
    ensures
        widths(w@) == bit_pair(bit),
{
    let w: [u32; 2] = if bit == 1 { [3, 1] } else { [1, 3] };
    proof {
        assert(widths(w@) =~= bit_pair(bit));
    }
    w
}

/// Append widths to a width list.
fn push_widths(ws: &mut Vec<u32>, src: &[u32])
    ensures
        widths(final(ws)@) == widths(old(ws)@) + widths(src@),
{
    let mut i: usize = 0;
    while i < src.len()
        invariant
            i <= src@.len(),
            widths(ws@) == widths(old(ws)@) + widths(src@.take(i as int)),
        decreases src@.len() - i,
    {
        let ghost prev = ws@;
        ws.push(src[i]);
        i = i + 1;
        proof {
            assert(src@.take(i as int) =~= src@.take(i - 1).push(src@[i - 1]));
            assert(widths(src@.take(i as int)) =~= widths(src@.take(i - 1)).push(src@[i - 1] as int));
            assert(widths(ws@) =~= widths(prev).push(src@[i - 1] as int));
            assert(widths(ws@) =~= widths(old(ws)@) + widths(src@.take(i as int)));
        }
    }
    proof {
        assert(src@.take(src@.len() as int) =~= src@);
    }
}

/// Append the widths of a bit stream.
fn push_pairs(ws: &mut Vec<u32>, bits: &[u8])
    ensures
        widths(final(ws)@) == widths(old(ws)@) + pairs_of(bits@),
{
    let mut i: usize = 0;
    while i < bits.len()
        invariant
            i <= bits@.len(),
            widths(ws@) == widths(old(ws)@) + pairs_of(bits@.take(i as int)),
        decreases bits@.len() - i,
    {
        let pair = bit_widths(bits[i]);
        push_widths(ws, &pair);
        proof {
            assert(bits@.take(i + 1).drop_last() =~= bits@.take(i as int));
            assert(widths(ws@) =~= widths(old(ws)@) + pairs_of(bits@.take(i + 1)));
        }
        i = i + 1;
    }
    proof {
        assert(bits@.take(bits@.len() as int) =~= bits@);
    }
}

/// Render an alternating (bar, space, ...) width sequence.
fn render_widths(out: &mut LinearPattern, ws: &[u32])
    ensures
        final(out).modules@ == old(out).modules@ + expand(widths(ws@)),
        final(out).quiet_zone == old(out).quiet_zone,
{
    let mut i: usize = 0;
    while i < ws.len()
        invariant
            i <= ws@.len(),
            out.modules@ == old(out).modules@ + expand(widths(ws@.take(i as int))),
            out.quiet_zone == old(out).quiet_zone,
        decreases ws@.len() - i,
    {
        out.push_run(i % 2 == 0, ws[i] as usize);
        proof {
            let t = widths(ws@.take(i + 1));
            assert(t.drop_last() =~= widths(ws@.take(i as int)));
            assert(t.last() == ws@[i as int] as int);
            assert(out.modules@ =~= old(out).modules@ + expand(t));
        }
        i = i + 1;
    }
    proof {
        assert(ws@.take(ws@.len() as int) =~= ws@);
    }
}

/// The element widths of the Plessey symbol for validated hex `digits`.
fn plessey_width_list(digits: &[u8]) -> (ws: Vec<u32>)
    requires
        all_hex(digits@),
        digits@.len() <= 0x0100_0000,
    ensures
        widths(ws@) == plessey_widths(digits@),
{
    let bits = plessey_bits(digits);
    proof {
        lemma_bits_len(digits@);
    }
    let crc = plessey_crc(bits.as_slice());
    let mut ws: Vec<u32> = Vec::new();
    push_widths(&mut ws, &[3, 1, 3, 1, 1, 3, 3, 1]);
    push_pairs(&mut ws, bits.as_slice());
    push_pairs(&mut ws, crc.as_slice());
    push_widths(&mut ws, &[3, 3, 1, 3, 1, 1, 3, 1, 3]);
    proof {
        lemma_pairs_append(bits@, crc@);
        assert(widths(seq![3u32, 1, 3, 1, 1, 3, 3, 1]) =~= plessey_start());
        assert(widths(seq![3u32, 3, 1, 3, 1, 1, 3, 1, 3]) =~= plessey_stop());
        assert(widths(ws@) =~= plessey_widths(digits@));
    }
    ws
}

/// Four data bits per digit.
proof fn lemma_bits_len(s: Seq<u8>)
    ensures
        plessey_bits_spec(s).len() == 4 * s.len(),
    decreases s.len(),
{
    if s.len() > 0 {
        lemma_bits_len(s.drop_last());
    }
}

/// Emit a Plessey symbol for validated hex `digits`.
fn plessey_encode(out: &mut LinearPattern, digits: &[u8])
    requires
        all_hex(digits@),
        digits@.len() <= 0x0100_0000,
    ensures
        final(out).modules@ == old(out).modules@ + plessey_modules(digits@),
        final(out).quiet_zone == old(out).quiet_zone,
{
    let ws = plessey_width_list(digits);
    render_widths(out, ws.as_slice());
}


/// Classes of a concatenation.
proof fn lemma_classes_concat(a: Seq<int>, b: Seq<int>)
    ensures
        classes(a + b) == classes(a) + classes(b),
{
    assert(classes(a + b) =~= classes(a) + classes(b));
}

/// Widths of a concatenation.
proof fn lemma_widths_concat(a: Seq<u32>, b: Seq<u32>)
    ensures
        widths(a + b) == widths(a) + widths(b),
{
    assert(widths(a + b) =~= widths(a) + widths(b));
}

/// Does `runs[start..start + pattern.len()]` match `pattern` by wide/narrow class?
fn matches_widths(runs: &[u32], start: usize, pattern: &[u32]) -> (r: bool)
    requires
        start + pattern@.len() <= runs@.len(),
    ensures
        r == (classes(widths(runs@.subrange(start as int, start + pattern@.len()))) == classes(widths(pattern@))),
{
    let ghost seg = runs@.subrange(start as int, start + pattern@.len());
    let rl = runs.len();
    let mut i: usize = 0;
    while i < pattern.len()
        invariant
            rl == runs@.len(),
            i <= pattern@.len(),
            start + pattern@.len() <= runs@.len(),
            seg == runs@.subrange(start as int, start + pattern@.len()),
            forall|j: int| 0 <= j < i ==> (seg[j] > 1) == (pattern@[j] > 1),
        decreases pattern@.len() - i,
    {
        if (runs[start + i] > 1) != (pattern[i] > 1) {
            proof {
                assert(classes(widths(seg))[i as int] != classes(widths(pattern@))[i as int]);
            }
            return false;
        }
        i = i + 1;
    }
    proof {
        assert(classes(widths(seg)) =~= classes(widths(pattern@)));
    }
    true
}

/// Is `bits[from..from + 8] == crc`?
fn tail_matches(bits: &[u8], from: usize, crc: &[u8]) -> (r: bool)
    requires
        from + 8 == bits@.len(),
        crc@.len() == 8,
    ensures
        r == (bits@.subrange(from as int, from + 8) == crc@),
{
    let bl = bits.len();
    let mut j: usize = 0;
    while j < 8
        invariant
            bl == bits@.len(),
            j <= 8,
            from + 8 == bits@.len(),
            crc@.len() == 8,
            forall|k: int| 0 <= k < j ==> bits@[from + k] == crc@[k],
        decreases 8 - j,
    {
        if bits[from + j] != crc[j] {
            proof {
                assert(bits@.subrange(from as int, from + 8)[j as int] != crc@[j as int]);
            }
            return false;
        }
        j = j + 1;
    }
    proof {
        assert(bits@.subrange(from as int, from + 8) =~= crc@);
    }
    true
}

/// Read the bits of the Plessey body `runs[8..8 + 2·nb]`, one per (bar, space) pair.
fn read_plessey_bits(runs: &[u32], nb: usize) -> (r: Result<Vec<u8>, Error>)
    requires
        8 + 2 * nb <= runs@.len(),
    ensures
        r matches Ok(bits) ==> bits@.len() == nb
            && (forall|i: int| 0 <= i < bits@.len() ==> #[trigger] bits@[i] <= 1)
            && classes(widths(runs@.subrange(8, 8 + 2 * nb))) == classes(pairs_of(bits@)),
        r is Err ==> r == Err::<Vec<u8>, Error>(Error::Undecodable),
{
    let mut bits: Vec<u8> = Vec::new();
    let rl = runs.len();
    let mut k: usize = 0;
    while k < nb
        invariant
            rl == runs@.len(),
            k <= nb,
            8 + 2 * nb <= runs@.len(),
            bits@.len() == k,
            forall|i: int| 0 <= i < bits@.len() ==> #[trigger] bits@[i] <= 1,
            classes(widths(runs@.subrange(8, 8 + 2 * k))) == classes(pairs_of(bits@)),
        decreases nb - k,
    {
        let wide_bar = runs[8 + 2 * k] > 1;
        let wide_space = runs[9 + 2 * k] > 1;
        let bit: u8 = if !wide_bar && wide_space {
            0
        } else if wide_bar && !wide_space {
            1
        } else {
            return Err(Error::Undecodable);
        };
        let ghost prev = bits@;
        bits.push(bit);
        proof {
            assert(bits@.drop_last() =~= prev);
            let a = runs@.subrange(8, 8 + 2 * k);
            let b = runs@.subrange(8 + 2 * k, 8 + 2 * k + 2);
            assert(runs@.subrange(8, 8 + 2 * (k + 1)) =~= a + b);
            lemma_widths_concat(a, b);
            lemma_classes_concat(widths(a), widths(b));
            lemma_classes_concat(pairs_of(prev), bit_pair(bit));
            assert(classes(widths(b)) =~= classes(bit_pair(bit)));
        }
        k = k + 1;
    }
    Ok(bits)
}

/// Turn validated data bits (a multiple of four) into Plessey digits.
fn bits_to_hex(data: &[u8]) -> (digits: Vec<u8>)
    requires
        data@.len() % 4 == 0,
        forall|i: int| 0 <= i < data@.len() ==> #[trigger] data@[i] <= 1,
    ensures
        all_hex(digits@),
        plessey_bits_spec(digits@) == data@,
{
    let dl = data.len();
    let n = dl / 4;
    let mut digits: Vec<u8> = Vec::new();
    let mut q: usize = 0;
    while q < n
        invariant
            dl == data@.len(),
            q <= n,
            n * 4 == data@.len(),
            forall|i: int| 0 <= i < data@.len() ==> #[trigger] data@[i] <= 1,
            all_hex(digits@),
            digits@.len() == q,
            plessey_bits_spec(digits@) == data@.take(4 * q),
        decreases n - q,
    {
        let b0 = data[4 * q];
        let b1 = data[4 * q + 1];
        let b2 = data[4 * q + 2];
        let b3 = data[4 * q + 3];
        let v = b0 + 2 * b1 + 4 * b2 + 8 * b3;
        let c = hex_char(v);
        let ghost prev = digits@;
        digits.push(c);
        proof {
            assert(digits@.drop_last() =~= prev);
            assert(nibble_bits(hex_val(c)) =~= seq![b0, b1, b2, b3]);
            assert(data@.take(4 * (q + 1)) =~= data@.take(4 * q) + seq![b0, b1, b2, b3]);
        }
        q = q + 1;
    }
    proof {
        assert(data@.take(4 * n) =~= data@);
    }
    digits
}

/// Decode Plessey modules: start, bit pairs, CRC, stop, classified wide/narrow.
fn plessey_decode(modules: &[bool]) -> (r: Result<Vec<u8>, Error>)
    requires
        modules@.len() <= 0x0fff_ffff,
    ensures
        r matches Ok(ds) ==> all_hex(ds@) && exists|rs: Seq<int>|
            positive_runs(rs) && expand(rs) == modules@ && #[trigger] classes(rs) == classes(plessey_widths(ds@)),
        r is Err ==> r == Err::<Vec<u8>, Error>(Error::Undecodable),
{
    let runs = match rle(modules) {
        Ok(v) => v,
        Err(e) => {
            return Err(e);
        },
    };
    let len = runs.len();
    if len < 8 + 9 + 16 {
        return Err(Error::Undecodable);
    }
    let start_pat: [u32; 8] = [3, 1, 3, 1, 1, 3, 3, 1];
    let stop_pat: [u32; 9] = [3, 3, 1, 3, 1, 1, 3, 1, 3];
    if !matches_widths(runs.as_slice(), 0, &start_pat) {
        return Err(Error::Undecodable);
    }
    if !matches_widths(runs.as_slice(), len - 9, &stop_pat) {
        return Err(Error::Undecodable);
    }
    let blen = len - 17;
    if blen % 2 != 0 {
        return Err(Error::Undecodable);
    }
    let nb = blen / 2;
    let bits = match read_plessey_bits(runs.as_slice(), nb) {
        Ok(b) => b,
        Err(e) => {
            return Err(e);
        },
    };
    if bits.len() < 8 || (bits.len() - 8) % 4 != 0 {
        return Err(Error::Undecodable);
    }
    let dl = bits.len() - 8;
    let data = prefix(bits.as_slice(), dl);
    let crc = plessey_crc(data.as_slice());
    if !tail_matches(bits.as_slice(), dl, crc.as_slice()) {
        return Err(Error::Undecodable);
    }
    proof {
        assert forall|i: int| 0 <= i < data@.len() implies #[trigger] data@[i] <= 1 by {
            assert(data@[i] == bits@[i]);
        }
    }
    let digits = bits_to_hex(data.as_slice());
    proof {
        let rs = widths(runs@);
        assert(bits@ =~= data@ + crc@);
        let r0 = runs@.subrange(0, 8);
        let r1 = runs@.subrange(8, len - 9);
        let r2 = runs@.subrange(len - 9, len as int);
        assert(runs@ =~= r0 + r1 + r2);
        lemma_widths_concat(r0 + r1, r2);
        lemma_widths_concat(r0, r1);
        lemma_classes_concat(widths(r0) + widths(r1), widths(r2));
        lemma_classes_concat(widths(r0), widths(r1));
        assert(widths(start_pat@) =~= plessey_start());
        assert(widths(stop_pat@) =~= plessey_stop());
        let b = plessey_bits_spec(digits@);
        lemma_classes_concat(plessey_start() + pairs_of(b + plessey_crc_spec(b)), plessey_stop());
        lemma_classes_concat(plessey_start(), pairs_of(b + plessey_crc_spec(b)));
        assert(classes(rs) == classes(plessey_widths(digits@)));
    }
    Ok(digits)
}


// ---------- public API ----------

/// The payload is acceptable for `symbology` under `check`: non-empty ASCII digits
/// whose check scheme applies (MSI), or non-empty hex digits (Plessey).
pub open spec fn msi_input_ok(symbology: Symbology, data: Seq<u8>, check: MsiCheck) -> bool {
    match symbology {
        Symbology::MsiPlessey => data.len() > 0 && all_digits(data) && check_ok(data, check),
        Symbology::Plessey => data.len() > 0 && all_hex(data),
        _ => false,
    }
}

/// The modules drawn for an accepted payload.
pub open spec fn msi_symbol_modules(symbology: Symbology, data: Seq<u8>, check: MsiCheck) -> Seq<bool> {
    if symbology == Symbology::MsiPlessey {
        msi_modules(data + check_seq(data, check))
    } else {
        plessey_modules(data)
    }
}

/// Is every byte a Plessey digit?
fn ensure_hex(data: &[u8]) -> (r: bool)
    ensures
        r == all_hex(data@),
{
    let mut i: usize = 0;
    while i < data.len()
        invariant
            i <= data@.len(),
            forall|j: int| 0 <= j < i ==> is_hex(#[trigger] data@[j]),
        decreases data@.len() - i,
    {
        if hex_value(data[i]).is_err() {
            return false;
        }
        i = i + 1;
    }
    true
}

/// MSI Plessey / Plessey encoder.
#[derive(Debug, Default, Clone, Copy)]
pub struct MsiEncoder;

impl MsiEncoder {
    /// A new encoder.
    pub fn new() -> (e: Self) {
        MsiEncoder
    }

    /// Number of modules [`MsiEncoder::encode_into`] emits for `data_len` payload
    /// digits, excluding quiet zones (exact). `meta.check` only matters for
    /// [`Symbology::MsiPlessey`]; any other symbology is sized as Plessey.
    pub fn max_modules(symbology: Symbology, data_len: usize, meta: &MsiMeta) -> (n: usize)
        requires
            data_len <= 0x0100_0000,
        ensures
            n == (if symbology == Symbology::MsiPlessey {
                3 + 12 * (data_len + check_len_spec(meta.check)) + 4
            } else {
                16 + 16 * data_len + 4 * 8 + 19
            }),
    {
        match symbology {
            Symbology::MsiPlessey => 3 + 12 * (data_len + check_len(meta.check)) + 4,
            _ => 16 + 16 * data_len + 4 * 8 + 19,
        }
    }

    /// Write `data` as `symbology` ([`Symbology::MsiPlessey`] or
    /// [`Symbology::Plessey`]) to `out`.
    ///
    /// MSI Plessey takes ASCII digits and appends the check digits of `meta.check`;
    /// Plessey takes hex digits `0-9 A-F` and ignores `meta`. The payload must not be
    /// empty. The input is validated before the first module is written.
    pub fn encode_into(&self, symbology: Symbology, data: &[u8], meta: &MsiMeta, out: &mut LinearPattern) -> (r: Result<(), Error>)
        requires
            data@.len() <= 0x0100_0000,
        ensures
            symbology != Symbology::MsiPlessey && symbology != Symbology::Plessey ==> r == Err::<(), Error>(Error::InvalidParameter),
            symbology == Symbology::MsiPlessey || symbology == Symbology::Plessey ==> (r is Ok <==> msi_input_ok(symbology, data@, meta.check)),
            r is Ok ==> final(out).modules@ == msi_symbol_modules(symbology, data@, meta.check)
                && final(out).quiet_zone == QUIET_ZONE,
            r is Err ==> *final(out) == *old(out),
            r is Err && (symbology == Symbology::MsiPlessey || symbology == Symbology::Plessey) ==> r == Err::<(), Error>(Error::InvalidData),
    {
        match symbology {
            Symbology::MsiPlessey => {
                if ensure_digits(data).is_err() {
                    return Err(Error::InvalidData);
                }
                proof {
                    lemma_digits_msi(data@);
                }
                let check = match check_digits(data, meta.check) {
                    Ok(c) => c,
                    Err(e) => {
                        return Err(e);
                    },
                };
                let n = check_len(meta.check);
                let mut tail: Vec<u8> = Vec::new();
                let mut i: usize = 0;
                while i < n
                    invariant
                        i <= n,
                        n <= 2,
                        n == check_len_spec(meta.check),
                        tail@ == check@.take(i as int),
                    decreases n - i,
                {
                    tail.push(check[i]);
                    i = i + 1;
                    proof {
                        assert(tail@ =~= check@.take(i as int));
                    }
                }
                proof {
                    assert(msi_chars(tail@)) by {
                        assert(tail@ == check_seq(data@, meta.check));
                        lemma_check_chars(data@, meta.check);
                    }
                }
                out.begin(QUIET_ZONE);
                proof {
                    assert(out.modules@ =~= Seq::<bool>::empty());
                }
                msi_encode(out, data, tail.as_slice());
                proof {
                    assert(out.modules@ =~= msi_modules(data@ + check_seq(data@, meta.check)));
                }
                Ok(())
            },
            Symbology::Plessey => {
                if !ensure_hex(data) {
                    return Err(Error::InvalidData);
                }
                if data.len() == 0 {
                    return Err(Error::InvalidData);
                }
                out.begin(QUIET_ZONE);
                plessey_encode(out, data);
                proof {
                    assert(out.modules@ =~= plessey_modules(data@));
                }
                Ok(())
            },
            _ => Err(Error::InvalidParameter),
        }
    }

    /// Build an MSI Plessey symbol from `digits` with the given check `scheme`.
    pub fn build_msi(&self, digits: &[u8], scheme: MsiCheck) -> (r: Result<Symbol, Error>)
        requires
            digits@.len() <= 0x0100_0000,
        ensures
            r is Ok <==> msi_input_ok(Symbology::MsiPlessey, digits@, scheme),
            r matches Ok(s) ==> {
                &&& s.symbology == Symbology::MsiPlessey
                &&& s.segments@.len() == 1
                &&& s.segments@[0].mode == Mode::Numeric
                &&& s.segments@[0].data@ == digits@
                &&& s.meta == SymbolMeta::Msi(MsiMeta { check: scheme })
            },
            r is Err ==> r == Err::<Symbol, Error>(Error::InvalidData),
    {
        if ensure_digits(digits).is_err() {
            return Err(Error::InvalidData);
        }
        proof {
            lemma_digits_msi(digits@);
        }
        if apply_check(digits, scheme).is_err() {
            return Err(Error::InvalidData);
        }
        let mut segs: Vec<Segment> = Vec::new();
        segs.push(Segment::numeric(copy_bytes(digits)));
        Ok(Symbol::new(Symbology::MsiPlessey, segs, SymbolMeta::Msi(MsiMeta { check: scheme })))
    }

    /// Build a Plessey symbol from hex `digits` (`0-9 A-F`).
    pub fn build_plessey(&self, digits: &[u8]) -> (r: Result<Symbol, Error>)
        ensures
            r is Ok <==> msi_input_ok(Symbology::Plessey, digits@, MsiCheck::NoCheck),
            r matches Ok(s) ==> {
                &&& s.symbology == Symbology::Plessey
                &&& s.segments@.len() == 1
                &&& s.segments@[0].mode == Mode::Byte
                &&& s.segments@[0].data@ == digits@
                &&& s.meta == SymbolMeta::Msi(MsiMeta { check: MsiCheck::NoCheck })
            },
            r is Err ==> r == Err::<Symbol, Error>(Error::InvalidData),
    {
        if !ensure_hex(digits) {
            return Err(Error::InvalidData);
        }
        if digits.len() == 0 {
            return Err(Error::InvalidData);
        }
        let mut segs: Vec<Segment> = Vec::new();
        segs.push(Segment::byte(copy_bytes(digits)));
        Ok(Symbol::new(Symbology::Plessey, segs, SymbolMeta::Msi(MsiMeta { check: MsiCheck::NoCheck })))
    }

    /// Encode an MSI Plessey or Plessey symbol into its module pattern.
    pub fn encode(&self, symbol: &Symbol) -> (r: Result<Encoding, Error>)
        requires
            payload_of(symbol.segments@).len() <= 0x0100_0000,
        ensures
            match symbol.meta {
                SymbolMeta::Msi(m) => {
                    &&& (symbol.symbology != Symbology::MsiPlessey && symbol.symbology != Symbology::Plessey
                        ==> r == Err::<Encoding, Error>(Error::InvalidParameter))
                    &&& (symbol.symbology == Symbology::MsiPlessey || symbol.symbology == Symbology::Plessey ==> {
                        &&& (r is Ok <==> msi_input_ok(symbol.symbology, payload_of(symbol.segments@), m.check))
                        &&& (r is Err ==> r == Err::<Encoding, Error>(Error::InvalidData))
                    })
                    &&& (r is Ok ==> (r matches Ok(Encoding::Linear(p))
                        && p.modules@ == msi_symbol_modules(symbol.symbology, payload_of(symbol.segments@), m.check)
                        && p.quiet_zone == QUIET_ZONE))
                },
                _ => r == Err::<Encoding, Error>(Error::InvalidParameter),
            },
    {
        let meta = match &symbol.meta {
            SymbolMeta::Msi(m) => m,
            #[allow(unreachable_patterns)]
            _ => {
                return Err(Error::InvalidParameter);
            },
        };
        let mut pattern = LinearPattern::new();
        let payload = symbol.payload_bytes();
        match self.encode_into(symbol.symbology, payload.as_slice(), meta, &mut pattern) {
            Ok(()) => Ok(Encoding::Linear(pattern)),
            Err(e) => Err(e),
        }
    }
}

/// The check digits a scheme appends are MSI characters.
proof fn lemma_check_chars(data: Seq<u8>, scheme: MsiCheck)
    requires
        check_ok(data, scheme),
    ensures
        msi_chars(check_seq(data, scheme)),
{
    let c = check_seq(data, scheme);
    assert forall|i: int| 0 <= i < c.len() implies 48 <= #[trigger] c[i] <= 63 by {
        assert(0 <= luhn_check(data) < 10);
        assert(0 <= mod11_check(data) < 11);
    }
}

/// MSI Plessey / Plessey decoder.
#[derive(Debug, Default, Clone, Copy)]
pub struct MsiDecoder {
    /// Decode the original Plessey code (CRC verified) rather than MSI Plessey.
    pub plessey: bool,
    /// Expected MSI check scheme.
    pub check: MsiCheck,
}

impl MsiDecoder {
    /// A new MSI Plessey decoder that expects no check digit.
    pub fn new() -> (d: Self)
        ensures
            !d.plessey,
            d.check == MsiCheck::NoCheck,
    {
        MsiDecoder { plessey: false, check: MsiCheck::NoCheck }
    }

    /// An MSI Plessey decoder expecting the given check `scheme`.
    pub fn with_check(scheme: MsiCheck) -> (d: Self)
        ensures
            !d.plessey,
            d.check == scheme,
    {
        MsiDecoder { plessey: false, check: scheme }
    }

    /// A decoder for the original Plessey code (CRC verified).
    pub fn plessey() -> (d: Self)
        ensures
            d.plessey,
            d.check == MsiCheck::NoCheck,
    {
        MsiDecoder { plessey: true, check: MsiCheck::NoCheck }
    }

    /// Decode a linear module pattern.
    pub fn decode(&self, encoding: &Encoding) -> (r: Result<Symbol, Error>)
        requires
            encoding matches Encoding::Linear(p) ==> p.modules@.len() <= 0x0fff_ffff,
        ensures
            encoding is Matrix ==> r == Err::<Symbol, Error>(Error::InvalidParameter),
            r matches Ok(s) ==> s.segments@.len() == 1 && (encoding matches Encoding::Linear(p) && (if self.plessey {
                &&& s.symbology == Symbology::Plessey
                &&& s.segments@[0].mode == Mode::Byte
                &&& s.meta == SymbolMeta::Msi(MsiMeta { check: MsiCheck::NoCheck })
                &&& all_hex(s.segments@[0].data@)
                &&& exists|rs: Seq<int>| positive_runs(rs) && expand(rs) == p.modules@
                    && #[trigger] classes(rs) == classes(plessey_widths(s.segments@[0].data@))
            } else {
                let ds = s.segments@[0].data@;
                &&& s.symbology == Symbology::MsiPlessey
                &&& s.segments@[0].mode == Mode::Numeric
                &&& s.meta == SymbolMeta::Msi(MsiMeta { check: self.check })
                &&& msi_chars(ds) && check_ok(ds, self.check)
                &&& p.modules@ == msi_modules(ds + check_seq(ds, self.check))
            })),
            encoding matches Encoding::Linear(p) ==> forall|ds: Seq<u8>|
                !self.plessey && #[trigger] msi_premise(p.modules@, ds, self.check) ==> (r matches Ok(s)
                    && s.symbology == Symbology::MsiPlessey && s.segments@[0].data@ == ds),
    {
        let pattern = match encoding {
            Encoding::Linear(p) => p,
            Encoding::Matrix(_) => {
                return Err(Error::InvalidParameter);
            },
        };
        let mut segs: Vec<Segment> = Vec::new();
        if self.plessey {
            let digits = match plessey_decode(pattern.modules.as_slice()) {
                Ok(d) => d,
                Err(e) => {
                    return Err(e);
                },
            };
            segs.push(Segment::byte(digits));
            Ok(Symbol::new(Symbology::Plessey, segs, SymbolMeta::Msi(MsiMeta { check: MsiCheck::NoCheck })))
        } else {
            let digits = match msi_decode(pattern.modules.as_slice(), self.check) {
                Ok(d) => d,
                Err(e) => {
                    return Err(e);
                },
            };
            segs.push(Segment::numeric(digits));
            Ok(Symbol::new(Symbology::MsiPlessey, segs, SymbolMeta::Msi(MsiMeta { check: self.check })))
        }
    }
}

} // verus!
