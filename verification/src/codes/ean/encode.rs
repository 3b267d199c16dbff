//! EAN/UPC encoding: symbol → module row.
use vstd::prelude::*;
use vstd::string::StringSliceAdditionalSpecFns;
use crate::error::Error;
use crate::output::{Encoding, LinearPattern, run_of};
use crate::segment::{Mode, Segment};
use crate::symbol::{Symbol, SymbolMeta};
use crate::symbology::Symbology;
use crate::text::all_digits;
use super::{AddOn, AddOnKind, EanMeta, EanVariant};
use super::tables::{
    check_digit, check_digit_spec, digit_vals, ean13_first_parity, ean13_first_parity_spec,
    ean2_parity, ean2_parity_spec, ean5_checksum, ean5_parity, ean5_parity_spec, ean5_sum,
    l_code, left_code, left_code_spec, r_code, r_code_spec, l_code_spec, upce_expand,
    upce_expand_spec, upce_parity, upce_parity_spec,
};

verus! {

/// Quiet zone of a main symbol, in modules.
pub const QUIET_MAIN: usize = 9;
/// Quiet zone of a standalone add-on, in modules.
pub const QUIET_ADDON: usize = 7;
/// Space between a main symbol and its add-on, in modules.
pub const ADDON_GAP: usize = 9;

// ---- Module-level model ------------------------------------------------------

/// Normal start/end guard `101`.
pub open spec fn normal_guard() -> Seq<bool> {
    seq![true, false, true]
}

/// Centre guard `01010`.
pub open spec fn center_guard() -> Seq<bool> {
    seq![false, true, false, true, false]
}

/// UPC-E end guard `010101`.
pub open spec fn upce_end_guard() -> Seq<bool> {
    seq![false, true, false, true, false, true]
}

/// Add-on start guard `1011`.
pub open spec fn addon_lead() -> Seq<bool> {
    seq![true, false, true, true]
}

/// Add-on inter-digit delineator `01`.
pub open spec fn addon_sep() -> Seq<bool> {
    seq![false, true]
}

/// Digit values of ASCII digits.
pub open spec fn vals_of(d: Seq<u8>) -> Seq<u8> {
    d.map_values(|c: u8| (c - 48) as u8)
}

/// Left-hand elements of `v`, digit `i` in parity `p[i]`.
pub open spec fn lefts(v: Seq<u8>, p: Seq<bool>) -> Seq<bool>
    decreases v.len(),
{
    if v.len() == 0 {
        Seq::empty()
    } else {
        lefts(v.drop_last(), p) + left_code_spec(v.last() as int, p[v.len() - 1])
    }
}

/// Right-hand elements of `v`.
pub open spec fn rights(v: Seq<u8>) -> Seq<bool>
    decreases v.len(),
{
    if v.len() == 0 {
        Seq::empty()
    } else {
        rights(v.drop_last()) + r_code_spec(v.last() as int)
    }
}

/// Add-on digits of `v` in parities `p`, separated by delineators.
pub open spec fn addon_digits(v: Seq<u8>, p: Seq<bool>) -> Seq<bool>
    decreases v.len(),
{
    if v.len() == 0 {
        Seq::empty()
    } else {
        addon_digits(v.drop_last(), p) + (if v.len() > 1 { addon_sep() } else { Seq::empty() })
            + left_code_spec(v.last() as int, p[v.len() - 1])
    }
}

/// Six copies of "odd".
pub open spec fn all_odd() -> Seq<bool> {
    Seq::new(6, |_i: int| false)
}

/// EAN-13 modules for thirteen digit values.
pub open spec fn ean13_modules(v: Seq<u8>) -> Seq<bool> {
    normal_guard() + lefts(v.subrange(1, 7), ean13_first_parity_spec(v[0] as int)) + center_guard()
        + rights(v.subrange(7, 13)) + normal_guard()
}

/// EAN-8 modules for eight digit values.
pub open spec fn ean8_modules(v: Seq<u8>) -> Seq<bool> {
    normal_guard() + lefts(v.subrange(0, 4), all_odd()) + center_guard() + rights(v.subrange(4, 8))
        + normal_guard()
}

/// UPC-E modules for six payload values in the given parities.
pub open spec fn upce_modules(payload: Seq<u8>, parity: Seq<bool>) -> Seq<bool> {
    normal_guard() + lefts(payload, parity) + upce_end_guard()
}

/// EAN-2 modules for two digit values.
pub open spec fn ean2_modules(v: Seq<u8>) -> Seq<bool> {
    addon_lead() + addon_digits(v, ean2_parity_spec((10 * v[0] + v[1]) % 4))
}

/// EAN-5 modules for five digit values.
pub open spec fn ean5_modules(v: Seq<u8>) -> Seq<bool> {
    addon_lead() + addon_digits(v, ean5_parity_spec(ean5_sum(v, 5) % 10))
}

/// The ASCII digits `d` are a valid payload for `variant` (length, number system and
/// check digit).
pub open spec fn main_ok(variant: EanVariant, d: Seq<u8>) -> bool {
    let v = vals_of(d);
    all_digits(d) && match variant {
        EanVariant::Ean13 => d.len() == 13 && check_digit_spec(v.take(12)) == v[12],
        EanVariant::UpcA => d.len() == 12 && check_digit_spec(v.take(11)) == v[11],
        EanVariant::Ean8 => d.len() == 8 && check_digit_spec(v.take(7)) == v[7],
        EanVariant::UpcE => d.len() == 8 && v[0] <= 1
            && check_digit_spec(upce_expand_spec(v[0], v.subrange(1, 7))) == v[7],
        EanVariant::Ean2 => d.len() == 2,
        EanVariant::Ean5 => d.len() == 5,
    }
}

/// The modules of a valid main payload.
pub open spec fn main_modules(variant: EanVariant, d: Seq<u8>) -> Seq<bool> {
    let v = vals_of(d);
    match variant {
        EanVariant::Ean13 => ean13_modules(v),
        EanVariant::UpcA => ean13_modules(seq![0u8] + v),
        EanVariant::Ean8 => ean8_modules(v),
        EanVariant::UpcE => upce_modules(v.subrange(1, 7), upce_parity_spec(v[0] as int, v[7] as int)),
        EanVariant::Ean2 => ean2_modules(v),
        EanVariant::Ean5 => ean5_modules(v),
    }
}

/// The add-on digits are valid for its kind.
pub open spec fn addon_ok(kind: AddOnKind, d: Seq<u8>) -> bool {
    all_digits(d) && d.len() == (if kind == AddOnKind::Two { 2int } else { 5int })
}

/// The modules of a valid add-on.
pub open spec fn addon_modules(kind: AddOnKind, d: Seq<u8>) -> Seq<bool> {
    if kind == AddOnKind::Two { ean2_modules(vals_of(d)) } else { ean5_modules(vals_of(d)) }
}

/// Is `variant` a standalone add-on?
pub open spec fn is_addon_variant(variant: EanVariant) -> bool {
    variant == EanVariant::Ean2 || variant == EanVariant::Ean5
}

// ---- Rendering ---------------------------------------------------------------

/// Push module booleans (`true` = bar).
fn push_bits(out: &mut LinearPattern, bits: &[bool])
    ensures
        final(out).modules@ == old(out).modules@ + bits@,
        final(out).quiet_zone == old(out).quiet_zone,
{
    let mut i: usize = 0;
    while i < bits.len()
        invariant
            i <= bits@.len(),
            out.modules@ == old(out).modules@ + bits@.take(i as int),
            out.quiet_zone == old(out).quiet_zone,
        decreases bits@.len() - i,
    {
        out.push_run(bits[i], 1);
        i = i + 1;
        proof {
            assert(run_of(bits@[i - 1], 1) =~= seq![bits@[i - 1]]);
            assert(out.modules@ =~= old(out).modules@ + bits@.take(i as int));
        }
    }
    proof {
        assert(bits@.take(bits@.len() as int) =~= bits@);
    }
}

/// Push the left-hand elements of `v` in parities `p`.
fn push_lefts(out: &mut LinearPattern, v: &[u8], p: &[bool])
    requires
        digit_vals(v@),
        v@.len() <= p@.len(),
    ensures
        final(out).modules@ == old(out).modules@ + lefts(v@, p@),
        final(out).quiet_zone == old(out).quiet_zone,
{
    let mut i: usize = 0;
    while i < v.len()
        invariant
            i <= v@.len(),
            v@.len() <= p@.len(),
            digit_vals(v@),
            out.modules@ == old(out).modules@ + lefts(v@.take(i as int), p@),
            out.quiet_zone == old(out).quiet_zone,
        decreases v@.len() - i,
    {
        assert(v@[i as int] <= 9);
        let code = left_code(v[i], p[i]);
        push_bits(out, &code);
        proof {
            assert(v@.take(i + 1).drop_last() =~= v@.take(i as int));
        }
        i = i + 1;
    }
    proof {
        assert(v@.take(v@.len() as int) =~= v@);
    }
}

/// Push the right-hand elements of `v`.
fn push_rights(out: &mut LinearPattern, v: &[u8])
    requires
        digit_vals(v@),
    ensures
        final(out).modules@ == old(out).modules@ + rights(v@),
        final(out).quiet_zone == old(out).quiet_zone,
{
    let mut i: usize = 0;
    while i < v.len()
        invariant
            i <= v@.len(),
            digit_vals(v@),
            out.modules@ == old(out).modules@ + rights(v@.take(i as int)),
            out.quiet_zone == old(out).quiet_zone,
        decreases v@.len() - i,
    {
        assert(v@[i as int] <= 9);
        let code = r_code(v[i]);
        push_bits(out, &code);
        proof {
            assert(v@.take(i + 1).drop_last() =~= v@.take(i as int));
        }
        i = i + 1;
    }
    proof {
        assert(v@.take(v@.len() as int) =~= v@);
    }
}

/// Push an add-on (lead guard, then digits with delineators).
fn push_addon(out: &mut LinearPattern, v: &[u8], p: &[bool])
    requires
        digit_vals(v@),
        v@.len() <= p@.len(),
    ensures
        final(out).modules@ == old(out).modules@ + addon_lead() + addon_digits(v@, p@),
        final(out).quiet_zone == old(out).quiet_zone,
{
    push_bits(out, &[true, false, true, true]);
    let ghost base = out.modules@;
    proof {
        assert(seq![true, false, true, true] =~= addon_lead());
    }
    let mut i: usize = 0;
    while i < v.len()
        invariant
            i <= v@.len(),
            v@.len() <= p@.len(),
            digit_vals(v@),
            base == old(out).modules@ + addon_lead(),
            out.modules@ == base + addon_digits(v@.take(i as int), p@),
            out.quiet_zone == old(out).quiet_zone,
        decreases v@.len() - i,
    {
        if i > 0 {
            push_bits(out, &[false, true]);
        }
        assert(v@[i as int] <= 9);
        let code = left_code(v[i], p[i]);
        push_bits(out, &code);
        proof {
            assert(v@.take(i + 1).drop_last() =~= v@.take(i as int));
            assert(seq![false, true] =~= addon_sep());
            if i > 0 {
                assert(out.modules@ =~= base + addon_digits(v@.take(i + 1), p@));
            } else {
                assert(out.modules@ =~= base + addon_digits(v@.take(i + 1), p@));
            }
        }
        i = i + 1;
    }
    proof {
        assert(v@.take(v@.len() as int) =~= v@);
    }
}

/// Digit values of ASCII digits.
fn values(digits: &[u8]) -> (v: Vec<u8>)
    requires
        all_digits(digits@),
    ensures
        v@ == vals_of(digits@),
        digit_vals(v@),
{
    let mut v: Vec<u8> = Vec::new();
    let mut i: usize = 0;
    while i < digits.len()
        invariant
            i <= digits@.len(),
            all_digits(digits@),
            v@ == vals_of(digits@.take(i as int)),
        decreases digits@.len() - i,
    {
        assert(48 <= digits@[i as int] <= 57);
        v.push(digits[i] - 48);
        i = i + 1;
        proof {
            assert(v@ =~= vals_of(digits@.take(i as int)));
        }
    }
    proof {
        assert(digits@.take(digits@.len() as int) =~= digits@);
    }
    v
}

/// Is every byte an ASCII digit?
fn validate_ascii(bytes: &[u8]) -> (r: Result<(), Error>)
    ensures
        r is Ok <==> all_digits(bytes@),
        r is Err ==> r == Err::<(), Error>(Error::InvalidData),
{
    let mut i: usize = 0;
    while i < bytes.len()
        invariant
            i <= bytes@.len(),
            forall|j: int| 0 <= j < i ==> 48 <= #[trigger] bytes@[j] <= 57,
        decreases bytes@.len() - i,
    {
        if !(48 <= bytes[i] && bytes[i] <= 57) {
            return Err(Error::InvalidData);
        }
        i = i + 1;
    }
    Ok(())
}

/// The first `n` values of `v`.
fn take_vals(v: &[u8], lo: usize, hi: usize) -> (r: Vec<u8>)
    requires
        lo <= hi <= v@.len(),
    ensures
        r@ == v@.subrange(lo as int, hi as int),
{
    let mut r: Vec<u8> = Vec::new();
    let mut i: usize = lo;
    while i < hi
        invariant
            lo <= i <= hi,
            hi <= v@.len(),
            r@ == v@.subrange(lo as int, i as int),
        decreases hi - i,
    {
        r.push(v[i]);
        i = i + 1;
        proof {
            assert(r@ =~= v@.subrange(lo as int, i as int));
        }
    }
    r
}

/// Render EAN-13 modules for thirteen digit values.
fn render_ean13(out: &mut LinearPattern, v: &[u8])
    requires
        v@.len() == 13,
        digit_vals(v@),
    ensures
        final(out).modules@ == old(out).modules@ + ean13_modules(v@),
        final(out).quiet_zone == old(out).quiet_zone,
{
    let parity = ean13_first_parity(v[0]);
    push_bits(out, &[true, false, true]);
    let left = take_vals(v, 1, 7);
    push_lefts(out, left.as_slice(), &parity);
    push_bits(out, &[false, true, false, true, false]);
    let right = take_vals(v, 7, 13);
    push_rights(out, right.as_slice());
    push_bits(out, &[true, false, true]);
    proof {
        assert(seq![true, false, true] =~= normal_guard());
        assert(seq![false, true, false, true, false] =~= center_guard());
        assert(final(out).modules@ =~= old(out).modules@ + ean13_modules(v@));
    }
}

/// Render EAN-8 modules for eight digit values.
fn render_ean8(out: &mut LinearPattern, v: &[u8])
    requires
        v@.len() == 8,
        digit_vals(v@),
    ensures
        final(out).modules@ == old(out).modules@ + ean8_modules(v@),
        final(out).quiet_zone == old(out).quiet_zone,
{
    push_bits(out, &[true, false, true]);
    let left = take_vals(v, 0, 4);
    let odd = [false; 6];
    push_lefts(out, left.as_slice(), &odd);
    push_bits(out, &[false, true, false, true, false]);
    let right = take_vals(v, 4, 8);
    push_rights(out, right.as_slice());
    push_bits(out, &[true, false, true]);
    proof {
        assert(odd@ =~= all_odd());
        assert(seq![true, false, true] =~= normal_guard());
        assert(seq![false, true, false, true, false] =~= center_guard());
        assert(final(out).modules@ =~= old(out).modules@ + ean8_modules(v@));
    }
}

/// Render UPC-E modules for six payload values in the given parities.
fn render_upce(out: &mut LinearPattern, payload: &[u8], parity: &[bool; 6])
    requires
        payload@.len() == 6,
        digit_vals(payload@),
    ensures
        final(out).modules@ == old(out).modules@ + upce_modules(payload@, parity@),
        final(out).quiet_zone == old(out).quiet_zone,
{
    push_bits(out, &[true, false, true]);
    push_lefts(out, payload, parity);
    push_bits(out, &[false, true, false, true, false, true]);
    proof {
        assert(seq![true, false, true] =~= normal_guard());
        assert(seq![false, true, false, true, false, true] =~= upce_end_guard());
        assert(final(out).modules@ =~= old(out).modules@ + upce_modules(payload@, parity@));
    }
}

/// Render an EAN-2 add-on for two digit values.
fn render_ean2(out: &mut LinearPattern, v: &[u8])
    requires
        v@.len() == 2,
        digit_vals(v@),
    ensures
        final(out).modules@ == old(out).modules@ + ean2_modules(v@),
        final(out).quiet_zone == old(out).quiet_zone,
{
    assert(v@[0] <= 9 && v@[1] <= 9);
    let value = v[0] * 10 + v[1];
    let parity = ean2_parity(value % 4);
    push_addon(out, v, &parity);
    proof {
        assert(final(out).modules@ =~= old(out).modules@ + ean2_modules(v@));
    }
}

/// Render an EAN-5 add-on for five digit values.
fn render_ean5(out: &mut LinearPattern, v: &[u8])
    requires
        v@.len() == 5,
        digit_vals(v@),
    ensures
        final(out).modules@ == old(out).modules@ + ean5_modules(v@),
        final(out).quiet_zone == old(out).quiet_zone,
{
    let parity = ean5_parity(ean5_checksum(v));
    push_addon(out, v, &parity);
    proof {
        assert(final(out).modules@ =~= old(out).modules@ + ean5_modules(v@));
    }
}

/// Validate a main payload, returning its digit values.
fn parse_main(variant: EanVariant, digits: &[u8]) -> (r: Result<Vec<u8>, Error>)
    ensures
        r is Ok <==> main_ok(variant, digits@),
        r matches Ok(v) ==> v@ == vals_of(digits@) && digit_vals(v@),
        r is Err ==> r == Err::<Vec<u8>, Error>(Error::InvalidData),
{
    if validate_ascii(digits).is_err() {
        return Err(Error::InvalidData);
    }
    let v = values(digits);
    let ghost vs = v@;
    match variant {
        EanVariant::Ean13 | EanVariant::UpcA | EanVariant::Ean8 => {
            let n: usize = match variant {
                EanVariant::Ean13 => 13,
                EanVariant::UpcA => 12,
                _ => 8,
            };
            if v.len() != n {
                return Err(Error::InvalidData);
            }
            let data = take_vals(v.as_slice(), 0, n - 1);
            proof {
                assert(data@ =~= vs.take(n - 1));
            }
            if check_digit(data.as_slice()) != v[n - 1] {
                return Err(Error::InvalidData);
            }
            Ok(v)
        },
        EanVariant::UpcE => {
            if v.len() != 8 {
                return Err(Error::InvalidData);
            }
            let ns = v[0];
            if ns > 1 {
                return Err(Error::InvalidData);
            }
            let payload = [v[1], v[2], v[3], v[4], v[5], v[6]];
            proof {
                assert(payload@ =~= vs.subrange(1, 7));
            }
            let expanded = upce_expand(ns, &payload);
            proof {
                assert(digit_vals(expanded@)) by {
                    assert forall|i: int| 0 <= i < 11 implies #[trigger] expanded@[i] <= 9 by {
                        assert(vs[1] <= 9 && vs[2] <= 9 && vs[3] <= 9 && vs[4] <= 9 && vs[5] <= 9 && vs[6] <= 9);
                    }
                }
            }
            if check_digit(&expanded) != v[7] {
                return Err(Error::InvalidData);
            }
            Ok(v)
        },
        EanVariant::Ean2 => {
            if v.len() != 2 {
                return Err(Error::InvalidData);
            }
            Ok(v)
        },
        EanVariant::Ean5 => {
            if v.len() != 5 {
                return Err(Error::InvalidData);
            }
            Ok(v)
        },
    }
}

/// Render a validated main payload.
fn render_main(out: &mut LinearPattern, variant: EanVariant, v: &[u8], Ghost(d): Ghost<Seq<u8>>)
    requires
        main_ok(variant, d),
        v@ == vals_of(d),
        digit_vals(v@),
    ensures
        final(out).modules@ == old(out).modules@ + main_modules(variant, d),
        final(out).quiet_zone == old(out).quiet_zone,
{
    match variant {
        EanVariant::Ean13 => render_ean13(out, v),
        EanVariant::UpcA => {
            let mut full: Vec<u8> = Vec::new();
            full.push(0);
            let mut i: usize = 0;
            while i < 12
                invariant
                    i <= 12,
                    v@.len() == 12,
                    full@ == seq![0u8] + v@.take(i as int),
                decreases 12 - i,
            {
                full.push(v[i]);
                i = i + 1;
                proof {
                    assert(full@ =~= seq![0u8] + v@.take(i as int));
                }
            }
            proof {
                assert(v@.take(12) =~= v@);
                assert(digit_vals(full@)) by {
                    assert forall|j: int| 0 <= j < 13 implies #[trigger] full@[j] <= 9 by {
                        if j > 0 {
                            assert(full@[j] == v@[j - 1]);
                        }
                    }
                }
            }
            render_ean13(out, full.as_slice());
        },
        EanVariant::Ean8 => render_ean8(out, v),
        EanVariant::UpcE => {
            let payload = [v[1], v[2], v[3], v[4], v[5], v[6]];
            proof {
                assert(payload@ =~= v@.subrange(1, 7));
            }
            let parity = upce_parity(v[0], v[7]);
            render_upce(out, &payload, &parity);
        },
        EanVariant::Ean2 => render_ean2(out, v),
        EanVariant::Ean5 => render_ean5(out, v),
    }
}

/// EAN/UPC encoder.
#[derive(Debug, Default, Clone, Copy)]
pub struct EanEncoder;

impl EanEncoder {
    /// A new encoder.
    pub fn new() -> (e: Self) {
        EanEncoder
    }

    /// Number of modules [`EanEncoder::encode_into`] emits, excluding quiet zones
    /// (exact).
    pub fn max_modules(variant: EanVariant, addon: Option<AddOnKind>) -> (n: usize)
        ensures
            n == main_len(variant) + match addon {
                None => 0int,
                Some(AddOnKind::Two) => ADDON_GAP + 20,
                Some(AddOnKind::Five) => ADDON_GAP + 47,
            },
    {
        let main: usize = match variant {
            EanVariant::Ean13 | EanVariant::UpcA => 95,
            EanVariant::Ean8 => 67,
            EanVariant::UpcE => 51,
            EanVariant::Ean2 => 20,
            EanVariant::Ean5 => 47,
        };
        match addon {
            None => main,
            Some(AddOnKind::Two) => main + ADDON_GAP + 20,
            Some(AddOnKind::Five) => main + ADDON_GAP + 47,
        }
    }

    /// Write a symbol of `variant` from ASCII `digits` (including the check digit)
    /// with an optional add-on to `out`. Everything is validated before the first
    /// module is written.
    pub fn encode_into(&self, variant: EanVariant, digits: &[u8], addon: Option<&AddOn>, out: &mut LinearPattern)
        -> (r: Result<(), Error>)
        ensures
            !main_ok(variant, digits@) ==> r == Err::<(), Error>(Error::InvalidData),
            main_ok(variant, digits@) && addon is Some && is_addon_variant(variant)
                ==> r == Err::<(), Error>(Error::InvalidParameter),
            r is Ok <==> main_ok(variant, digits@) && match addon {
                None => true,
                Some(a) => !is_addon_variant(variant) && addon_ok(a.kind, a.digits@),
            },
            r is Err ==> *final(out) == *old(out) && (r == Err::<(), Error>(Error::InvalidData)
                || r == Err::<(), Error>(Error::InvalidParameter)),
            r is Ok ==> final(out).quiet_zone == (if is_addon_variant(variant) { QUIET_ADDON } else { QUIET_MAIN })
                && final(out).modules@ == main_modules(variant, digits@) + match addon {
                    None => Seq::<bool>::empty(),
                    Some(a) => run_of(false, ADDON_GAP as nat) + addon_modules(a.kind, a.digits@),
                },
    {
        let v = match parse_main(variant, digits) {
            Ok(v) => v,
            Err(e) => {
                return Err(e);
            },
        };
        let mut av: Vec<u8> = Vec::new();
        let mut akind = AddOnKind::Two;
        let has_addon = match addon {
            Some(a) => {
                if matches!(variant, EanVariant::Ean2 | EanVariant::Ean5) {
                    return Err(Error::InvalidParameter);
                }
                if validate_ascii(a.digits.as_slice()).is_err() {
                    return Err(Error::InvalidData);
                }
                let need: usize = match a.kind {
                    AddOnKind::Two => 2,
                    AddOnKind::Five => 5,
                };
                if a.digits.len() != need {
                    return Err(Error::InvalidData);
                }
                av = values(a.digits.as_slice());
                akind = a.kind;
                true
            },
            None => false,
        };
        let quiet = if matches!(variant, EanVariant::Ean2 | EanVariant::Ean5) { QUIET_ADDON } else { QUIET_MAIN };
        out.begin(quiet);
        proof {
            assert(out.modules@ =~= Seq::<bool>::empty());
        }
        render_main(out, variant, v.as_slice(), Ghost(digits@));
        if has_addon {
            out.push_run(false, ADDON_GAP);
            if akind == AddOnKind::Two {
                render_ean2(out, av.as_slice());
            } else {
                render_ean5(out, av.as_slice());
            }
        }
        proof {
            match addon {
                None => {
                    assert(out.modules@ =~= main_modules(variant, digits@) + Seq::<bool>::empty());
                },
                Some(a) => {
                    assert(out.modules@ =~= main_modules(variant, digits@) + (run_of(false, ADDON_GAP as nat)
                        + addon_modules(a.kind, a.digits@)));
                },
            }
        }
        Ok(())
    }
}

/// Main symbol length in modules.
pub open spec fn main_len(variant: EanVariant) -> int {
    match variant {
        EanVariant::Ean13 | EanVariant::UpcA => 95,
        EanVariant::Ean8 => 67,
        EanVariant::UpcE => 51,
        EanVariant::Ean2 => 20,
        EanVariant::Ean5 => 47,
    }
}


// ---- Building symbols --------------------------------------------------------

/// `b` with its check digit appended when it has exactly `n` data digits.
pub open spec fn with_check_spec(b: Seq<u8>, n: int) -> Seq<u8> {
    if b.len() == n { b.push((48 + check_digit_spec(vals_of(b))) as u8) } else { b }
}

/// `b` is `n` data digits, or `n` data digits and their correct check digit.
pub open spec fn with_check_ok(b: Seq<u8>, n: int) -> bool {
    all_digits(b) && (b.len() == n || (b.len() == n + 1 && check_digit_spec(vals_of(b).take(n)) == vals_of(b)[n]))
}

/// Number system and six payload digits of a UPC-E input of 6, 7 or 8 digits.
pub open spec fn upce_ns(b: Seq<u8>) -> int {
    if b.len() == 6 { 0 } else { b[0] - 48 }
}

/// The six payload digits of a UPC-E input.
pub open spec fn upce_payload(b: Seq<u8>) -> Seq<u8> {
    if b.len() == 6 { b } else { b.subrange(1, 7) }
}

/// The UPC-E check digit of an input.
pub open spec fn upce_check(b: Seq<u8>) -> int {
    check_digit_spec(upce_expand_spec(upce_ns(b) as u8, vals_of(upce_payload(b))))
}

/// A UPC-E input is 6, 7 or 8 ASCII digits in number system 0 or 1, and an
/// eighth digit, if present, is the check digit.
pub open spec fn upce_build_ok(b: Seq<u8>) -> bool {
    &&& all_digits(b)
    &&& (b.len() == 6 || b.len() == 7 || b.len() == 8)
    &&& upce_ns(b) <= 1
    &&& (b.len() == 8 ==> b[7] - 48 == upce_check(b))
}

/// The eight digits a UPC-E symbol carries for a valid input.
pub open spec fn upce_build_digits(b: Seq<u8>) -> Seq<u8> {
    seq![(48 + upce_ns(b)) as u8] + upce_payload(b) + seq![(48 + upce_check(b)) as u8]
}

/// The first numeric segment's bytes, if any.
pub open spec fn first_numeric(segs: Seq<Segment>) -> Option<Seq<u8>>
    decreases segs.len(),
{
    if segs.len() == 0 {
        None
    } else if segs[0].mode == Mode::Numeric {
        Some(segs[0].data@)
    } else {
        first_numeric(segs.drop_first())
    }
}

/// `r` is `symbol` re-labelled with the add-on digits `d` under `variant`.
pub open spec fn addon_attached(r: Result<Symbol, Error>, symbol: Symbol, variant: EanVariant, d: Seq<u8>) -> bool {
    match r {
        Ok(s) => {
            &&& s.symbology == symbol.symbology
            &&& s.segments@ == symbol.segments@
            &&& match s.meta {
                SymbolMeta::Ean(m2) => {
                    &&& m2.variant == variant
                    &&& match m2.addon {
                        Some(a) => a.digits@ == d && a.kind == (if d.len() == 2 { AddOnKind::Two } else { AddOnKind::Five }),
                        None => false,
                    }
                },
                _ => false,
            }
        },
        Err(_) => false,
    }
}

/// The main symbol for validated digits.
fn main_symbol(symbology: Symbology, variant: EanVariant, digits: Vec<u8>) -> (s: Symbol)
    ensures
        s.symbology == symbology,
        s.segments@.len() == 1,
        s.segments@[0].mode == Mode::Numeric,
        s.segments@[0].data@ == digits@,
        s.meta == SymbolMeta::Ean(EanMeta { variant, addon: None }),
{
    let mut segs: Vec<Segment> = Vec::new();
    segs.push(Segment::numeric(digits));
    Symbol::new(symbology, segs, SymbolMeta::Ean(EanMeta::new(variant)))
}

/// The bytes of `s` as a vector.
fn str_bytes(s: &str) -> (v: Vec<u8>)
    ensures
        v@ == s.spec_bytes(),
{
    let b = s.as_bytes();
    let mut v: Vec<u8> = Vec::new();
    let mut i: usize = 0;
    while i < b.len()
        invariant
            i <= b@.len(),
            b@ == s.spec_bytes(),
            v@ == b@.take(i as int),
        decreases b@.len() - i,
    {
        v.push(b[i]);
        i = i + 1;
        proof {
            assert(v@ =~= b@.take(i as int));
        }
    }
    proof {
        assert(b@.take(b@.len() as int) =~= b@);
    }
    v
}

/// ASCII digits of `s`, or [`Error::InvalidData`].
fn ascii_digits(s: &str) -> (r: Result<Vec<u8>, Error>)
    ensures
        r is Ok <==> all_digits(s.spec_bytes()),
        r matches Ok(v) ==> v@ == s.spec_bytes(),
        r is Err ==> r == Err::<Vec<u8>, Error>(Error::InvalidData),
{
    let bytes = str_bytes(s);
    if validate_ascii(bytes.as_slice()).is_err() {
        return Err(Error::InvalidData);
    }
    Ok(bytes)
}

/// Exactly `len` ASCII digits.
fn exact_digits(s: &str, len: usize) -> (r: Result<Vec<u8>, Error>)
    ensures
        r is Ok <==> all_digits(s.spec_bytes()) && s.spec_bytes().len() == len,
        r matches Ok(v) ==> v@ == s.spec_bytes(),
        r is Err ==> r == Err::<Vec<u8>, Error>(Error::InvalidData),
{
    let d = match ascii_digits(s) {
        Ok(d) => d,
        Err(e) => {
            return Err(e);
        },
    };
    if d.len() != len {
        return Err(Error::InvalidData);
    }
    Ok(d)
}

/// `data_len` digits (check digit appended) or `data_len + 1` digits whose last is
/// the correct check digit.
fn with_check(s: &str, data_len: usize) -> (r: Result<Vec<u8>, Error>)
    requires
        data_len <= 16,
    ensures
        r is Ok <==> with_check_ok(s.spec_bytes(), data_len as int),
        r matches Ok(v) ==> v@ == with_check_spec(s.spec_bytes(), data_len as int),
        r is Err ==> r == Err::<Vec<u8>, Error>(Error::InvalidData),
{
    let mut d = match ascii_digits(s) {
        Ok(d) => d,
        Err(e) => {
            return Err(e);
        },
    };
    if d.len() == data_len {
        let vals = values(d.as_slice());
        let c = check_digit(vals.as_slice());
        d.push(48 + c);
    } else if d.len() == data_len + 1 {
        let vals = values(d.as_slice());
        let data = take_vals(vals.as_slice(), 0, data_len);
        proof {
            assert(data@ =~= vals@.take(data_len as int));
        }
        if check_digit(data.as_slice()) != vals[data_len] {
            return Err(Error::InvalidData);
        }
    } else {
        return Err(Error::InvalidData);
    }
    Ok(d)
}

impl EanEncoder {
    /// Build an EAN-13 symbol from 12 digits (check digit appended) or 13 digits
    /// (check digit verified).
    pub fn build_ean13(&self, digits: &str) -> (r: Result<Symbol, Error>)
        ensures
            r is Ok <==> with_check_ok(digits.spec_bytes(), 12),
            r matches Ok(s) ==> s.symbology == Symbology::Ean13 && s.segments@.len() == 1
                && s.segments@[0].mode == Mode::Numeric
                && s.segments@[0].data@ == with_check_spec(digits.spec_bytes(), 12)
                && s.meta == SymbolMeta::Ean(EanMeta { variant: EanVariant::Ean13, addon: None }),
            r is Err ==> r == Err::<Symbol, Error>(Error::InvalidData),
    {
        let d = match with_check(digits, 12) {
            Ok(d) => d,
            Err(e) => {
                return Err(e);
            },
        };
        Ok(main_symbol(Symbology::Ean13, EanVariant::Ean13, d))
    }

    /// Build an EAN-8 symbol from 7 digits (check digit appended) or 8 digits.
    pub fn build_ean8(&self, digits: &str) -> (r: Result<Symbol, Error>)
        ensures
            r is Ok <==> with_check_ok(digits.spec_bytes(), 7),
            r matches Ok(s) ==> s.symbology == Symbology::Ean8 && s.segments@.len() == 1
                && s.segments@[0].mode == Mode::Numeric
                && s.segments@[0].data@ == with_check_spec(digits.spec_bytes(), 7)
                && s.meta == SymbolMeta::Ean(EanMeta { variant: EanVariant::Ean8, addon: None }),
            r is Err ==> r == Err::<Symbol, Error>(Error::InvalidData),
    {
        let d = match with_check(digits, 7) {
            Ok(d) => d,
            Err(e) => {
                return Err(e);
            },
        };
        Ok(main_symbol(Symbology::Ean8, EanVariant::Ean8, d))
    }

    /// Build a UPC-A symbol from 11 digits (check digit appended) or 12 digits.
    pub fn build_upca(&self, digits: &str) -> (r: Result<Symbol, Error>)
        ensures
            r is Ok <==> with_check_ok(digits.spec_bytes(), 11),
            r matches Ok(s) ==> s.symbology == Symbology::UpcA && s.segments@.len() == 1
                && s.segments@[0].mode == Mode::Numeric
                && s.segments@[0].data@ == with_check_spec(digits.spec_bytes(), 11)
                && s.meta == SymbolMeta::Ean(EanMeta { variant: EanVariant::UpcA, addon: None }),
            r is Err ==> r == Err::<Symbol, Error>(Error::InvalidData),
    {
        let d = match with_check(digits, 11) {
            Ok(d) => d,
            Err(e) => {
                return Err(e);
            },
        };
        Ok(main_symbol(Symbology::UpcA, EanVariant::UpcA, d))
    }

    /// Build a UPC-E symbol from 6 payload digits (number system 0), 7 digits
    /// (number system + payload) or 8 digits (+ verified check digit).
    pub fn build_upce(&self, digits: &str) -> (r: Result<Symbol, Error>)
        ensures
            r is Ok <==> upce_build_ok(digits.spec_bytes()),
            r matches Ok(s) ==> s.symbology == Symbology::UpcE && s.segments@.len() == 1
                && s.segments@[0].mode == Mode::Numeric
                && s.segments@[0].data@ == upce_build_digits(digits.spec_bytes())
                && s.meta == SymbolMeta::Ean(EanMeta { variant: EanVariant::UpcE, addon: None }),
            r is Err ==> r == Err::<Symbol, Error>(Error::InvalidData),
    {
        let raw = match ascii_digits(digits) {
            Ok(d) => d,
            Err(e) => {
                return Err(e);
            },
        };
        let ghost b = raw@;
        let n = raw.len();
        if n != 6 && n != 7 && n != 8 {
            return Err(Error::InvalidData);
        }
        let (ns, first): (u8, usize) = if n == 6 { (0, 0) } else { (raw[0] - 48, 1) };
        if ns > 1 {
            return Err(Error::InvalidData);
        }
        let payload_ascii = take_vals(raw.as_slice(), first, first + 6);
        proof {
            assert(payload_ascii@ =~= upce_payload(b));
            assert(all_digits(payload_ascii@));
        }
        let pv = values(payload_ascii.as_slice());
        let payload = [pv[0], pv[1], pv[2], pv[3], pv[4], pv[5]];
        proof {
            assert(payload@ =~= pv@);
        }
        let expanded = upce_expand(ns, &payload);
        proof {
            assert(digit_vals(expanded@)) by {
                assert forall|i: int| 0 <= i < 11 implies #[trigger] expanded@[i] <= 9 by {
                    assert(pv@[0] <= 9 && pv@[1] <= 9 && pv@[2] <= 9 && pv@[3] <= 9 && pv@[4] <= 9 && pv@[5] <= 9);
                }
            }
        }
        let check = check_digit(&expanded);
        if n == 8 && raw[7] - 48 != check {
            return Err(Error::InvalidData);
        }
        let mut d: Vec<u8> = Vec::new();
        d.push(48 + ns);
        let mut i: usize = 0;
        while i < 6
            invariant
                i <= 6,
                payload_ascii@.len() == 6,
                d@ == seq![(48 + ns) as u8] + payload_ascii@.take(i as int),
            decreases 6 - i,
        {
            d.push(payload_ascii[i]);
            i = i + 1;
            proof {
                assert(d@ =~= seq![(48 + ns) as u8] + payload_ascii@.take(i as int));
            }
        }
        d.push(48 + check);
        proof {
            assert(payload_ascii@.take(6) =~= payload_ascii@);
            assert(d@ =~= upce_build_digits(b));
        }
        Ok(main_symbol(Symbology::UpcE, EanVariant::UpcE, d))
    }

    /// Build a standalone EAN-2 add-on symbol from exactly 2 digits.
    pub fn build_ean2(&self, digits: &str) -> (r: Result<Symbol, Error>)
        ensures
            r is Ok <==> all_digits(digits.spec_bytes()) && digits.spec_bytes().len() == 2,
            r matches Ok(s) ==> s.symbology == Symbology::Ean2 && s.segments@.len() == 1
                && s.segments@[0].mode == Mode::Numeric
                && s.segments@[0].data@ == digits.spec_bytes()
                && s.meta == SymbolMeta::Ean(EanMeta { variant: EanVariant::Ean2, addon: None }),
            r is Err ==> r == Err::<Symbol, Error>(Error::InvalidData),
    {
        let d = match exact_digits(digits, 2) {
            Ok(d) => d,
            Err(e) => {
                return Err(e);
            },
        };
        Ok(main_symbol(Symbology::Ean2, EanVariant::Ean2, d))
    }

    /// Build a standalone EAN-5 add-on symbol from exactly 5 digits.
    pub fn build_ean5(&self, digits: &str) -> (r: Result<Symbol, Error>)
        ensures
            r is Ok <==> all_digits(digits.spec_bytes()) && digits.spec_bytes().len() == 5,
            r matches Ok(s) ==> s.symbology == Symbology::Ean5 && s.segments@.len() == 1
                && s.segments@[0].mode == Mode::Numeric
                && s.segments@[0].data@ == digits.spec_bytes()
                && s.meta == SymbolMeta::Ean(EanMeta { variant: EanVariant::Ean5, addon: None }),
            r is Err ==> r == Err::<Symbol, Error>(Error::InvalidData),
    {
        let d = match exact_digits(digits, 5) {
            Ok(d) => d,
            Err(e) => {
                return Err(e);
            },
        };
        Ok(main_symbol(Symbology::Ean5, EanVariant::Ean5, d))
    }

    /// Attach a 2- or 5-digit add-on to an EAN/UPC symbol.
    pub fn with_addon(&self, symbol: Symbol, addon: &str) -> (r: Result<Symbol, Error>)
        ensures
            !(all_digits(addon.spec_bytes()) && (addon.spec_bytes().len() == 2 || addon.spec_bytes().len() == 5))
                ==> r == Err::<Symbol, Error>(Error::InvalidData),
            all_digits(addon.spec_bytes()) && (addon.spec_bytes().len() == 2 || addon.spec_bytes().len() == 5)
                ==> match symbol.meta {
                    SymbolMeta::Ean(m) => addon_attached(r, symbol, m.variant, addon.spec_bytes()),
                    _ => r == Err::<Symbol, Error>(Error::InvalidParameter),
                },
    {
        let digits = match ascii_digits(addon) {
            Ok(d) => d,
            Err(e) => {
                return Err(e);
            },
        };
        let kind = if digits.len() == 2 {
            AddOnKind::Two
        } else if digits.len() == 5 {
            AddOnKind::Five
        } else {
            return Err(Error::InvalidData);
        };
        let variant = match &symbol.meta {
            SymbolMeta::Ean(m) => m.variant,
            _ => {
                return Err(Error::InvalidParameter);
            },
        };
        let meta = EanMeta { variant, addon: Some(AddOn { kind, digits }) };
        Ok(Symbol::new(symbol.symbology, symbol.segments, SymbolMeta::Ean(meta)))
    }

    /// Encode an EAN/UPC symbol (with its add-on, if any) into its module row.
    pub fn encode(&self, symbol: &Symbol) -> (r: Result<Encoding, Error>)
        ensures
            match symbol.meta {
                SymbolMeta::Ean(m) => match first_numeric(symbol.segments@) {
                    None => r == Err::<Encoding, Error>(Error::InvalidData),
                    Some(d) => {
                        &&& (!all_digits(d) ==> r == Err::<Encoding, Error>(Error::InvalidData))
                        &&& (r is Ok <==> main_ok(m.variant, d) && match m.addon {
                            None => true,
                            Some(a) => !is_addon_variant(m.variant) && addon_ok(a.kind, a.digits@),
                        })
                        &&& (r matches Ok(Encoding::Linear(p)) ==> p.modules@ == main_modules(m.variant, d) + match m.addon {
                            None => Seq::<bool>::empty(),
                            Some(a) => run_of(false, ADDON_GAP as nat) + addon_modules(a.kind, a.digits@),
                        })
                        &&& (r is Ok ==> r matches Ok(Encoding::Linear(_)))
                    },
                },
                _ => r == Err::<Encoding, Error>(Error::InvalidParameter),
            },
    {
        let meta = match &symbol.meta {
            SymbolMeta::Ean(m) => m,
            _ => {
                return Err(Error::InvalidParameter);
            },
        };
        let digits = match segment_digits(symbol) {
            Some(d) => d,
            None => {
                return Err(Error::InvalidData);
            },
        };
        if validate_ascii(digits).is_err() {
            return Err(Error::InvalidData);
        }
        let mut pattern = LinearPattern::new();
        let addon = match &meta.addon {
            Some(a) => Some(a),
            None => None,
        };
        match self.encode_into(meta.variant, digits, addon, &mut pattern) {
            Ok(()) => Ok(Encoding::Linear(pattern)),
            Err(e) => Err(e),
        }
    }
}

/// The bytes of the first numeric segment of `symbol`.
fn segment_digits(symbol: &Symbol) -> (r: Option<&[u8]>)
    ensures
        r matches Some(d) ==> first_numeric(symbol.segments@) == Some(d@),
        r is None ==> first_numeric(symbol.segments@) is None,
{
    let mut i: usize = 0;
    proof {
        assert(symbol.segments@.skip(0) =~= symbol.segments@);
    }
    while i < symbol.segments.len()
        invariant
            i <= symbol.segments@.len(),
            first_numeric(symbol.segments@) == first_numeric(symbol.segments@.skip(i as int)),
        decreases symbol.segments@.len() - i,
    {
        let seg = &symbol.segments[i];
        proof {
            let rest = symbol.segments@.skip(i as int);
            assert(rest[0] == seg);
            assert(rest.drop_first() =~= symbol.segments@.skip(i + 1));
        }
        if matches!(seg.mode, Mode::Numeric) {
            return Some(seg.data.as_slice());
        }
        i = i + 1;
    }
    None
}

} // verus!
