//! USPS POSTNET and PLANET: 2-state codes, five bars per digit under the
//! `7-4-2-1-0` weighting, framed by a tall bar at each end, with a mod-10 check
//! digit group before the closing frame. POSTNET marks each digit with two tall
//! bars; PLANET uses the complementary patterns, with three.
use vstd::prelude::*;
use super::bars::{BarState, asc, desc};
use super::PostalVariant;
use crate::error::Error;

verus! {

/// The POSTNET pattern of digit `d` as a 5-bit number, first bar most significant.
pub open spec fn postnet_mask(d: int) -> int {
    if d == 0 { 24 } else if d == 1 { 3 } else if d == 2 { 5 } else if d == 3 { 6 } else if d == 4 {
        9
    } else if d == 5 { 10 } else if d == 6 { 12 } else if d == 7 { 17 } else if d == 8 { 18 } else {
        20
    }
}

/// The pattern of digit `d` in the given variant: PLANET complements POSTNET.
pub open spec fn digit_code(d: int, planet: bool) -> int {
    if planet { 31 - postnet_mask(d) } else { postnet_mask(d) }
}

/// The weight of bar `k` (0–4) in a 5-bar pattern.
pub open spec fn w5(k: int) -> int {
    if k == 0 { 16 } else if k == 1 { 8 } else if k == 2 { 4 } else if k == 3 { 2 } else { 1 }
}

/// A tall bar is an ascender, a short one a bare tracker.
pub open spec fn tall_bar(t: bool) -> BarState {
    if t { BarState::Ascender } else { BarState::Tracker }
}

/// The five bars of digit `d`.
pub open spec fn digit_bars(d: int, planet: bool) -> Seq<BarState> {
    Seq::new(5, |k: int| tall_bar((digit_code(d, planet) / w5(k)) % 2 == 1))
}

/// The digit values of ASCII digits.
pub open spec fn values_of(digits: Seq<u8>) -> Seq<int> {
    Seq::new(digits.len(), |i: int| digits[i] - 48)
}

/// The sum of digit values.
pub open spec fn digit_sum(values: Seq<int>) -> int
    decreases values.len(),
{
    if values.len() == 0 { 0 } else { digit_sum(values.drop_last()) + values.last() }
}

/// The mod-10 check digit: what makes the digit sum a multiple of ten.
pub open spec fn check_spec(values: Seq<int>) -> int {
    (10 - digit_sum(values) % 10) % 10
}

/// The bars of a run of digit values.
pub open spec fn groups_bars(values: Seq<int>, planet: bool) -> Seq<BarState>
    decreases values.len(),
{
    if values.len() == 0 {
        Seq::empty()
    } else {
        groups_bars(values.drop_last(), planet) + digit_bars(values.last(), planet)
    }
}

/// The full bar sequence of POSTNET (or PLANET) data digits.
pub open spec fn postnet_bars(digits: Seq<u8>, planet: bool) -> Seq<BarState> {
    let values = values_of(digits);
    seq![BarState::Ascender] + groups_bars(values.push(check_spec(values)), planet) + seq![BarState::Ascender]
}

/// Non-empty ASCII digits.
pub open spec fn digits_ok(digits: Seq<u8>) -> bool {
    digits.len() > 0 && forall|i: int| 0 <= i < digits.len() ==> 48 <= #[trigger] digits[i] <= 57
}

/// Validate that `digits` are non-empty ASCII digits.
pub fn validate_digits(digits: &[u8]) -> (r: Result<(), Error>)
    ensures
        r is Ok <==> digits_ok(digits@),
        r is Err ==> r == Err::<(), Error>(Error::InvalidData),
{
    if digits.len() == 0 {
        return Err(Error::InvalidData);
    }
    let mut i: usize = 0;
    while i < digits.len()
        invariant
            i <= digits@.len(),
            forall|k: int| 0 <= k < i ==> 48 <= #[trigger] digits@[k] <= 57,
        decreases digits@.len() - i,
    {
        if digits[i] < 48 || digits[i] > 57 {
            return Err(Error::InvalidData);
        }
        i = i + 1;
    }
    Ok(())
}

fn postnet_code(d: u8, planet: bool) -> (c: u8)
    requires
        d < 10,
    ensures
        c == digit_code(d as int, planet),
{
    let m: u8 = if d == 0 { 24 } else if d == 1 { 3 } else if d == 2 { 5 } else if d == 3 { 6 } else if d == 4 {
        9
    } else if d == 5 { 10 } else if d == 6 { 12 } else if d == 7 { 17 } else if d == 8 { 18 } else {
        20
    };
    if planet { 31 - m } else { m }
}

fn push_digit(bars: &mut Vec<BarState>, d: u8, planet: bool)
    requires
        d < 10,
    ensures
        final(bars)@ == old(bars)@ + digit_bars(d as int, planet),
{
    let code = postnet_code(d, planet);
    let weights: [u8; 5] = [16, 8, 4, 2, 1];
    let ghost start = bars@;
    let mut k: usize = 0;
    while k < 5
        invariant
            k <= 5,
            code == digit_code(d as int, planet),
            weights@ == seq![16u8, 8, 4, 2, 1],
            bars@ == start + digit_bars(d as int, planet).subrange(0, k as int),
        decreases 5 - k,
    {
        let t = (code / weights[k]) % 2 == 1;
        let b = if t { BarState::Ascender } else { BarState::Tracker };
        proof {
            assert(weights@[k as int] == w5(k as int));
        }
        bars.push(b);
        proof {
            assert(bars@ =~= start + digit_bars(d as int, planet).subrange(0, k + 1));
        }
        k = k + 1;
    }
    proof {
        assert(digit_bars(d as int, planet).subrange(0, 5) =~= digit_bars(d as int, planet));
    }
}

/// Encode data digits (no check digit) into the bar sequence.
pub fn encode(planet: bool, digits: &[u8]) -> (r: Result<Vec<BarState>, Error>)
    ensures
        digits_ok(digits@) ==> r is Ok && r->Ok_0@ == postnet_bars(digits@, planet),
        !digits_ok(digits@) ==> r == Err::<Vec<BarState>, Error>(Error::InvalidData),
{
    if validate_digits(digits).is_err() {
        return Err(Error::InvalidData);
    }
    let ghost values = values_of(digits@);
    let mut bars: Vec<BarState> = Vec::new();
    bars.push(BarState::Ascender);
    let mut sum: u64 = 0;
    let mut i: usize = 0;
    while i < digits.len()
        invariant
            digits_ok(digits@),
            values == values_of(digits@),
            i <= digits@.len(),
            sum == digit_sum(values.take(i as int)) % 10,
            bars@ == seq![BarState::Ascender] + groups_bars(values.take(i as int), planet),
        decreases digits@.len() - i,
    {
        let v = digits[i] - 48;
        proof {
            assert(48 <= digits@[i as int] <= 57);
            assert(values.take(i + 1).drop_last() =~= values.take(i as int));
            assert(values.take(i + 1).last() == v);
        }
        push_digit(&mut bars, v, planet);
        proof {
            assert(bars@ =~= seq![BarState::Ascender] + groups_bars(values.take(i + 1), planet));
        }
        proof {
            assert(digit_sum(values.take(i + 1)) == digit_sum(values.take(i as int)) + v);
        }
        sum = (sum + v as u64) % 10;
        i = i + 1;
    }
    let check = ((10 - sum) % 10) as u8;
    proof {
        assert(values.take(digits@.len() as int) =~= values);
        let vs = values.push(check as int);
        assert(vs.drop_last() =~= values);
    }
    push_digit(&mut bars, check, planet);
    bars.push(BarState::Ascender);
    proof {
        let vs = values.push(check as int);
        assert(vs.drop_last() =~= values);
        assert(bars@ =~= postnet_bars(digits@, planet));
    }
    Ok(bars)
}


/// `1` for a tall bar, `0` for a short one.
pub open spec fn tb(b: BarState) -> int {
    if asc(b) { 1 } else { 0 }
}

/// The 5-bit value of the tall bars in the group of five starting at `s`.
pub open spec fn group_code(bars: Seq<BarState>, s: int) -> int {
    16 * tb(bars[s]) + 8 * tb(bars[s + 1]) + 4 * tb(bars[s + 2]) + 2 * tb(bars[s + 3]) + tb(bars[s + 4])
}

/// The digit whose pattern in the given variant is `c`, if any.
pub open spec fn code_digit(c: int, planet: bool) -> Option<int> {
    let m = if planet { 31 - c } else { c };
    if m == 24 { Some(0) } else if m == 3 { Some(1) } else if m == 5 { Some(2) } else if m == 6 {
        Some(3)
    } else if m == 9 { Some(4) } else if m == 10 { Some(5) } else if m == 12 { Some(6) } else if m
        == 17 { Some(7) } else if m == 18 { Some(8) } else if m == 20 { Some(9) } else { None }
}

/// The digit values of consecutive 5-bar groups, if every group is a pattern of
/// the variant.
pub open spec fn groups_digits(groups: Seq<BarState>, planet: bool) -> Option<Seq<int>> {
    let n = groups.len() / 5;
    if forall|k: int| 0 <= k < n ==> (#[trigger] code_digit(group_code(groups, 5 * k), planet)) is Some {
        Some(Seq::new(n as nat, |k: int| code_digit(group_code(groups, 5 * k), planet).unwrap()))
    } else {
        None
    }
}

/// The data digits the groups spell in one variant, where the last group is their
/// check digit.
pub open spec fn variant_digits(groups: Seq<BarState>, planet: bool) -> Option<Seq<u8>> {
    match groups_digits(groups, planet) {
        Some(values) => if values.len() > 0 && check_spec(values.drop_last()) == values.last() {
            Some(Seq::new((values.len() - 1) as nat, |i: int| (values[i] + 48) as u8))
        } else {
            None
        },
        None => None,
    }
}

/// What decoding a POSTNET/PLANET bar sequence gives: POSTNET is tried first.
pub open spec fn postnet_decode_spec(bars: Seq<BarState>) -> Result<(PostalVariant, Seq<u8>), Error> {
    let n = bars.len();
    if n < 7 || (n - 2) % 5 != 0 || (exists|i: int| 0 <= i < n && desc(#[trigger] bars[i]))
        || bars[0] != BarState::Ascender || bars[n - 1] != BarState::Ascender {
        Err(Error::Undecodable)
    } else {
        let groups = bars.subrange(1, n - 1);
        match variant_digits(groups, false) {
            Some(d) => Ok((PostalVariant::Postnet, d)),
            None => match variant_digits(groups, true) {
                Some(d) => Ok((PostalVariant::Planet, d)),
                None => Err(Error::Undecodable),
            },
        }
    }
}

fn group_value(bars: &[BarState], s: usize) -> (c: u8)
    requires
        s + 5 <= bars@.len(),
    ensures
        c == group_code(bars@, s as int),
{
    let mut c: u8 = 0;
    if bars[s].has_ascender() { c = c + 16; }
    if bars[s + 1].has_ascender() { c = c + 8; }
    if bars[s + 2].has_ascender() { c = c + 4; }
    if bars[s + 3].has_ascender() { c = c + 2; }
    if bars[s + 4].has_ascender() { c = c + 1; }
    c
}

fn digit_of_code(c: u8, planet: bool) -> (r: Option<u8>)
    requires
        c < 32,
    ensures
        r == (match code_digit(c as int, planet) { Some(d) => Some(d as u8), None => None::<u8> }),
        r matches Some(d) ==> d < 10,
{
    let m = if planet { 31 - c } else { c };
    if m == 24 { Some(0) } else if m == 3 { Some(1) } else if m == 5 { Some(2) } else if m == 6 {
        Some(3)
    } else if m == 9 { Some(4) } else if m == 10 { Some(5) } else if m == 12 { Some(6) } else if m
        == 17 { Some(7) } else if m == 18 { Some(8) } else if m == 20 { Some(9) } else { None }
}

/// The digit values of the 5-bar groups, or `None` where a group is no pattern.
fn decode_groups(groups: &[BarState], planet: bool) -> (r: Option<Vec<u8>>)
    requires
        groups@.len() % 5 == 0,
    ensures
        match groups_digits(groups@, planet) {
            Some(vs) => r matches Some(v) && v@.len() == vs.len() && forall|k: int| 0 <= k < vs.len() ==> #[trigger] v@[k] == vs[k],
            None => r is None,
        },
{
    let glen = groups.len();
    let n = glen / 5;
    let mut out: Vec<u8> = Vec::new();
    let mut k: usize = 0;
    while k < n
        invariant
            glen == groups@.len(),
            n == groups@.len() / 5,
            groups@.len() % 5 == 0,
            k <= n,
            out@.len() == k,
            forall|j: int| 0 <= j < k ==> (#[trigger] code_digit(group_code(groups@, 5 * j), planet)) is Some,
            forall|j: int| 0 <= j < k ==> #[trigger] out@[j] == code_digit(group_code(groups@, 5 * j), planet).unwrap(),
        decreases n - k,
    {
        assert(5 * k + 5 <= glen);
        let c = group_value(groups, 5 * k);
        match digit_of_code(c, planet) {
            Some(d) => out.push(d),
            None => {
                proof {
                    assert(!((code_digit(group_code(groups@, 5 * k), planet)) is Some));
                }
                return None;
            },
        }
        k = k + 1;
    }
    Some(out)
}

/// Decode a POSTNET/PLANET bar sequence into the variant and the data digits (check
/// digit verified and removed).
pub fn decode(bars: &[BarState]) -> (r: Result<(PostalVariant, Vec<u8>), Error>)
    ensures
        match postnet_decode_spec(bars@) {
            Ok((v, d)) => r is Ok && r->Ok_0.0 == v && r->Ok_0.1@ == d,
            Err(e) => r == Err::<(PostalVariant, Vec<u8>), Error>(e),
        },
{
    let n = bars.len();
    if n < 7 || (n - 2) % 5 != 0 {
        return Err(Error::Undecodable);
    }
    let mut i: usize = 0;
    while i < n
        invariant
            n == bars@.len(),
            i <= n,
            forall|k: int| 0 <= k < i ==> !desc(#[trigger] bars@[k]),
        decreases n - i,
    {
        if bars[i].has_descender() {
            return Err(Error::Undecodable);
        }
        i = i + 1;
    }
    if bars[0] != BarState::Ascender || bars[n - 1] != BarState::Ascender {
        return Err(Error::Undecodable);
    }
    let groups = vstd::slice::slice_subrange(bars, 1, n - 1);
    let ghost g = bars@.subrange(1, n - 1);
    assert(groups@ == g);
    let mut planet = false;
    loop
        invariant
            groups@ == g,
            g.len() % 5 == 0,
            n == bars@.len(),
            n >= 7,
            (n - 2) % 5 == 0,
            forall|k: int| 0 <= k < n ==> !desc(#[trigger] bars@[k]),
            bars@[0] == BarState::Ascender && bars@[n - 1] == BarState::Ascender,
            g == bars@.subrange(1, n - 1),
            planet ==> variant_digits(g, false) is None,
        decreases (if planet { 0int } else { 1int }),
    {
        if let Some(values) = decode_groups(groups, planet) {
            let len = values.len();
            if len > 0 {
                let mut sum: u64 = 0;
                let mut k: usize = 0;
                let ghost vs = groups_digits(g, planet).unwrap();
                while k + 1 < len
                    invariant
                        len == values@.len(),
                        vs.len() == len,
                        forall|j: int| 0 <= j < len ==> #[trigger] values@[j] == vs[j],
                        forall|j: int| 0 <= j < len ==> values@[j] < 10,
                        k < len,
                        sum == digit_sum(vs.take(k as int)) % 10,
                    decreases len - k,
                {
                    proof {
                        assert(vs.take(k + 1).drop_last() =~= vs.take(k as int));
                        assert(digit_sum(vs.take(k + 1)) == digit_sum(vs.take(k as int)) + vs[k as int]);
                    }
                    sum = (sum + values[k] as u64) % 10;
                    k = k + 1;
                }
                proof {
                    assert(vs.take((len - 1) as int) =~= vs.drop_last());
                }
                let check = ((10 - sum) % 10) as u8;
                if check == values[len - 1] {
                    let mut digits: Vec<u8> = Vec::new();
                    let mut t: usize = 0;
                    while t + 1 < len
                        invariant
                            len == values@.len(),
                            vs.len() == len,
                            forall|j: int| 0 <= j < len ==> #[trigger] values@[j] == vs[j],
                            forall|j: int| 0 <= j < len ==> values@[j] < 10,
                            t < len,
                            digits@.len() == t,
                            forall|j: int| 0 <= j < t ==> #[trigger] digits@[j] == (vs[j] + 48) as u8,
                        decreases len - t,
                    {
                        digits.push(values[t] + 48);
                        t = t + 1;
                    }
                    proof {
                        assert(digits@ =~= variant_digits(g, planet).unwrap());
                    }
                    let variant = if planet { PostalVariant::Planet } else { PostalVariant::Postnet };
                    return Ok((variant, digits));
                }
            }
        }
        if planet {
            return Err(Error::Undecodable);
        }
        planet = true;
    }
}

pub proof fn lemma_groups_bars(vs: Seq<int>, planet: bool)
    ensures
        groups_bars(vs, planet).len() == 5 * vs.len(),
        forall|k: int, j: int|
            0 <= k < vs.len() && 0 <= j < 5 ==> groups_bars(vs, planet)[5 * k + j] == #[trigger] digit_bars(vs[k], planet)[j],
    decreases vs.len(),
{
    if vs.len() > 0 {
        let init = vs.drop_last();
        lemma_groups_bars(init, planet);
        assert forall|k: int, j: int|
            0 <= k < vs.len() && 0 <= j < 5 implies groups_bars(vs, planet)[5 * k + j] == #[trigger] digit_bars(vs[k], planet)[j] by {
            if k < vs.len() - 1 {
                assert(vs[k] == init[k]);
                assert(groups_bars(init, planet)[5 * k + j] == digit_bars(init[k], planet)[j]);
            }
        }
    }
}

/// The tall bits of a 5-bit code add back up to the code.
proof fn lemma_code_value(c: int)
    requires
        0 <= c < 32,
    ensures
        16 * ((c / 16) % 2) + 8 * ((c / 8) % 2) + 4 * ((c / 4) % 2) + 2 * ((c / 2) % 2) + (c / 1) % 2 == c,
{
    let c8 = c as u8;
    assert(16 * ((c8 / 16) % 2) + 8 * ((c8 / 8) % 2) + 4 * ((c8 / 4) % 2) + 2 * ((c8 / 2) % 2) + (c8 / 1) % 2 == c8) by (bit_vector)
        requires
            c8 < 32,
    ;
}

/// A digit's pattern reads back as the digit, and a PLANET pattern is no POSTNET one.
proof fn lemma_code_digit(d: int, planet: bool)
    requires
        0 <= d < 10,
    ensures
        0 <= digit_code(d, planet) < 32,
        code_digit(digit_code(d, planet), planet) == Some(d),
        planet ==> code_digit(digit_code(d, planet), false) is None,
{
}

pub proof fn lemma_groups_digits(vs: Seq<int>, planet: bool)
    requires
        vs.len() > 0,
        forall|k: int| 0 <= k < vs.len() ==> 0 <= #[trigger] vs[k] < 10,
    ensures
        groups_digits(groups_bars(vs, planet), planet) == Some(vs),
        planet ==> groups_digits(groups_bars(vs, planet), false) is None,
        forall|i: int| 0 <= i < groups_bars(vs, planet).len() ==> !desc(#[trigger] groups_bars(vs, planet)[i]),
        groups_bars(vs, planet).len() == 5 * vs.len(),
{
    let gb = groups_bars(vs, planet);
    lemma_groups_bars(vs, planet);
    assert forall|i: int| 0 <= i < gb.len() implies !desc(#[trigger] gb[i]) by {
        let k = i / 5;
        let j = i % 5;
        assert(i == 5 * k + j);
        assert(gb[5 * k + j] == digit_bars(vs[k], planet)[j]);
    }
    assert forall|k: int| 0 <= k < vs.len() implies #[trigger] group_code(gb, 5 * k) == digit_code(vs[k], planet) by {
        lemma_code_digit(vs[k], planet);
        lemma_code_value(digit_code(vs[k], planet));
        assert(gb[5 * k] == digit_bars(vs[k], planet)[0]);
        assert(gb[5 * k + 1] == digit_bars(vs[k], planet)[1]);
        assert(gb[5 * k + 2] == digit_bars(vs[k], planet)[2]);
        assert(gb[5 * k + 3] == digit_bars(vs[k], planet)[3]);
        assert(gb[5 * k + 4] == digit_bars(vs[k], planet)[4]);
    }
    assert(gb.len() / 5 == vs.len());
    assert forall|k: int| 0 <= k < vs.len() implies (#[trigger] code_digit(group_code(gb, 5 * k), planet)) == Some(vs[k]) by {
        lemma_code_digit(vs[k], planet);
    }
    assert(Seq::new(vs.len(), |k: int| code_digit(group_code(gb, 5 * k), planet).unwrap()) =~= vs);
    if planet {
        lemma_code_digit(vs[0], planet);
        assert(code_digit(group_code(gb, 5 * 0int), false) is None);
    }
}

/// Decoding the bars of POSTNET or PLANET data digits gives the variant and the
/// digits back.
pub proof fn lemma_postnet_round_trip(digits: Seq<u8>, planet: bool)
    requires
        digits_ok(digits),
    ensures
        postnet_decode_spec(postnet_bars(digits, planet)) == Ok::<(PostalVariant, Seq<u8>), Error>(
            (if planet { PostalVariant::Planet } else { PostalVariant::Postnet }, digits),
        ),
{
    let values = values_of(digits);
    let check = check_spec(values);
    let vs = values.push(check);
    let bars = postnet_bars(digits, planet);
    let gb = groups_bars(vs, planet);
    assert forall|k: int| 0 <= k < vs.len() implies 0 <= #[trigger] vs[k] < 10 by {
        if k < values.len() {
            assert(48 <= digits[k] <= 57);
        }
    }
    lemma_groups_digits(vs, planet);
    let n = bars.len();
    assert(n == 5 * vs.len() + 2);
    assert(!(exists|i: int| 0 <= i < n && desc(#[trigger] bars[i]))) by {
        assert forall|i: int| 0 <= i < n implies !desc(#[trigger] bars[i]) by {
            if 1 <= i < n - 1 {
                assert(bars[i] == gb[i - 1]);
            }
        }
    }
    let groups = bars.subrange(1, n - 1);
    assert(groups =~= gb);
    assert(vs.drop_last() =~= values);
    assert(variant_digits(groups, planet) == Some(digits)) by {
        assert(Seq::new((vs.len() - 1) as nat, |i: int| (vs[i] + 48) as u8) =~= digits);
    }
}

} // verus!
