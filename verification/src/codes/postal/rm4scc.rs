//! Royal Mail RM4SCC and Dutch KIX: 4-state codes, four bars per character of
//! `0-9 A-Z`. A character's index is `(top − 1)·6 + (bottom − 1)`; the top value
//! (1–6) picks the "2 of 4" ascender pattern and the bottom value the descender
//! pattern. RM4SCC frames the data with a start bar (ascender) and a stop bar
//! (full) and adds a checksum character, whose top and bottom values are the sums
//! of the data's, reduced mod 6 (0 becomes 6). KIX has no framing and no checksum.
use vstd::prelude::*;
use super::bars::{BarState, asc, desc, bar_of};
use super::PostalVariant;
use crate::error::Error;

verus! {

/// The byte of character index `i` (0–35) in `0-9 A-Z`.
pub open spec fn alphabet_char(i: int) -> u8 {
    if i < 10 { (48 + i) as u8 } else { (55 + i) as u8 }
}

/// The character index of byte `b`, if it is in `0-9 A-Z`.
pub open spec fn char_index_spec(b: u8) -> Option<int> {
    if 48 <= b <= 57 { Some(b - 48) } else if 65 <= b <= 90 { Some(b - 55) } else { None }
}

/// The "2 of 4" pattern of value `v` (1–6), first bar most significant.
pub open spec fn pat4(v: int) -> int {
    if v == 1 { 3 } else if v == 2 { 5 } else if v == 3 { 6 } else if v == 4 { 9 } else if v == 5 {
        10
    } else { 12 }
}

/// The value (1–6) whose pattern is `p`, if any.
pub open spec fn pat_value(p: int) -> Option<int> {
    if p == 3 { Some(1) } else if p == 5 { Some(2) } else if p == 6 { Some(3) } else if p == 9 {
        Some(4)
    } else if p == 10 { Some(5) } else if p == 12 { Some(6) } else { None }
}

/// The weight of bar `k` (0–3) in a 4-bar pattern.
pub open spec fn w4(k: int) -> int {
    if k == 0 { 8 } else if k == 1 { 4 } else if k == 2 { 2 } else { 1 }
}

/// Bar `k` of pattern `p` is extended.
pub open spec fn pbit(p: int, k: int) -> bool {
    (p / w4(k)) % 2 == 1
}

/// The four bars of character index `c`.
pub open spec fn char_bars(c: int) -> Seq<BarState> {
    Seq::new(4, |k: int| bar_of(pbit(pat4(c / 6 + 1), k), pbit(pat4(c % 6 + 1), k)))
}

/// The bars of a run of character indices.
pub open spec fn chars_bars(idx: Seq<int>) -> Seq<BarState>
    decreases idx.len(),
{
    if idx.len() == 0 { Seq::empty() } else { chars_bars(idx.drop_last()) + char_bars(idx.last()) }
}

/// The sum of the top values of character indices.
pub open spec fn top_sum(idx: Seq<int>) -> int
    decreases idx.len(),
{
    if idx.len() == 0 { 0 } else { top_sum(idx.drop_last()) + idx.last() / 6 + 1 }
}

/// The sum of the bottom values of character indices.
pub open spec fn bottom_sum(idx: Seq<int>) -> int
    decreases idx.len(),
{
    if idx.len() == 0 { 0 } else { bottom_sum(idx.drop_last()) + idx.last() % 6 + 1 }
}

/// A value sum reduced mod 6, with 0 becoming 6.
pub open spec fn cs_value(sum: int) -> int {
    if sum % 6 == 0 { 6 } else { sum % 6 }
}

/// The checksum character index of data character indices.
pub open spec fn checksum_spec(idx: Seq<int>) -> int {
    (cs_value(top_sum(idx)) - 1) * 6 + (cs_value(bottom_sum(idx)) - 1)
}

/// The checksum character is a character of the alphabet whose top value (1–6)
/// is congruent to the sum of the data's top values mod 6, and whose bottom value
/// likewise to the sum of their bottom values: a sum divisible by 6 gives 6.
pub proof fn lemma_checksum_congruent(idx: Seq<int>)
    ensures
        0 <= checksum_spec(idx) < 36,
        1 <= checksum_spec(idx) / 6 + 1 <= 6,
        (checksum_spec(idx) / 6 + 1) % 6 == top_sum(idx) % 6,
        (checksum_spec(idx) % 6 + 1) % 6 == bottom_sum(idx) % 6,
{
    let t = cs_value(top_sum(idx));
    let b = cs_value(bottom_sum(idx));
    assert(1 <= t <= 6 && 1 <= b <= 6);
    vstd::arithmetic::div_mod::lemma_fundamental_div_mod_converse(checksum_spec(idx), 6, t - 1, b - 1);
}

/// The character indices of `0-9 A-Z` data.
pub open spec fn indices_of(data: Seq<u8>) -> Seq<int> {
    Seq::new(data.len(), |i: int| char_index_spec(data[i]).unwrap())
}

/// Non-empty `0-9 A-Z` data.
pub open spec fn data_ok(data: Seq<u8>) -> bool {
    data.len() > 0 && forall|i: int| 0 <= i < data.len() ==> (#[trigger] char_index_spec(data[i])) is Some
}

/// The bars of RM4SCC (framed, with checksum) or KIX data.
pub open spec fn rm4scc_bars(data: Seq<u8>, kix: bool) -> Seq<BarState> {
    let idx = indices_of(data);
    if kix {
        chars_bars(idx)
    } else {
        seq![BarState::Ascender] + chars_bars(idx.push(checksum_spec(idx))) + seq![BarState::Full]
    }
}

/// Validate that `data` is a non-empty `0-9 A-Z` string.
pub fn validate(data: &[u8]) -> (r: Result<(), Error>)
    ensures
        r is Ok <==> data_ok(data@),
        r is Err ==> r == Err::<(), Error>(Error::InvalidData),
{
    if data.len() == 0 {
        return Err(Error::InvalidData);
    }
    let mut i: usize = 0;
    while i < data.len()
        invariant
            i <= data@.len(),
            forall|k: int| 0 <= k < i ==> (#[trigger] char_index_spec(data@[k])) is Some,
        decreases data@.len() - i,
    {
        let b = data[i];
        if !((48 <= b && b <= 57) || (65 <= b && b <= 90)) {
            proof {
                assert(char_index_spec(data@[i as int]) is None);
            }
            return Err(Error::InvalidData);
        }
        i = i + 1;
    }
    Ok(())
}

fn pattern_of(v: u8) -> (p: u8)
    requires
        1 <= v <= 6,
    ensures
        p == pat4(v as int),
{
    if v == 1 { 3 } else if v == 2 { 5 } else if v == 3 { 6 } else if v == 4 { 9 } else if v == 5 {
        10
    } else { 12 }
}

fn push_char(bars: &mut Vec<BarState>, c: u8)
    requires
        c < 36,
    ensures
        final(bars)@ == old(bars)@ + char_bars(c as int),
{
    let top = pattern_of(c / 6 + 1);
    let bottom = pattern_of(c % 6 + 1);
    let weights: [u8; 4] = [8, 4, 2, 1];
    let ghost start = bars@;
    let mut k: usize = 0;
    while k < 4
        invariant
            k <= 4,
            c < 36,
            top == pat4(c / 6 + 1),
            bottom == pat4(c % 6 + 1),
            weights@ == seq![8u8, 4, 2, 1],
            bars@ == start + char_bars(c as int).subrange(0, k as int),
        decreases 4 - k,
    {
        proof {
            assert(weights@[k as int] == w4(k as int));
        }
        let b = BarState::from_parts((top / weights[k]) % 2 == 1, (bottom / weights[k]) % 2 == 1);
        bars.push(b);
        proof {
            assert(bars@ =~= start + char_bars(c as int).subrange(0, k + 1));
        }
        k = k + 1;
    }
    proof {
        assert(char_bars(c as int).subrange(0, 4) =~= char_bars(c as int));
    }
}

/// Encode `0-9 A-Z` data into bars; `kix` leaves out the framing bars and checksum.
#[verifier::rlimit(40)]
pub fn encode(kix: bool, data: &[u8]) -> (r: Result<Vec<BarState>, Error>)
    ensures
        data_ok(data@) ==> r is Ok && r->Ok_0@ == rm4scc_bars(data@, kix),
        !data_ok(data@) ==> r == Err::<Vec<BarState>, Error>(Error::InvalidData),
{
    if validate(data).is_err() {
        return Err(Error::InvalidData);
    }
    let ghost idx = indices_of(data@);
    let mut bars: Vec<BarState> = Vec::new();
    if !kix {
        bars.push(BarState::Ascender);
    }
    let ghost start = bars@;
    let mut tsum: u8 = 0;
    let mut bsum: u8 = 0;
    let mut i: usize = 0;
    while i < data.len()
        invariant
            data_ok(data@),
            idx == indices_of(data@),
            i <= data@.len(),
            start == (if kix { Seq::<BarState>::empty() } else { seq![BarState::Ascender] }),
            bars@ == start + chars_bars(idx.take(i as int)),
            tsum == top_sum(idx.take(i as int)) % 6,
            bsum == bottom_sum(idx.take(i as int)) % 6,
        decreases data@.len() - i,
    {
        let b = data[i];
        let c: u8 = if b <= 57 { b - 48 } else { b - 55 };
        proof {
            assert((char_index_spec(data@[i as int])) is Some);
            assert(c == idx[i as int]);
            assert(idx.take(i + 1).drop_last() =~= idx.take(i as int));
            assert(idx.take(i + 1).last() == c);
            lemma_sums_step(idx, i as int);
            lemma_mod6_step(top_sum(idx.take(i as int)), tsum as int, c as int / 6 + 1);
            lemma_mod6_step(bottom_sum(idx.take(i as int)), bsum as int, c as int % 6 + 1);
        }
        push_char(&mut bars, c);
        proof {
            assert(bars@ =~= start + chars_bars(idx.take(i + 1)));
        }
        tsum = (tsum + c / 6 + 1) % 6;
        bsum = (bsum + c % 6 + 1) % 6;
        i = i + 1;
    }
    proof {
        assert(idx.take(data@.len() as int) =~= idx);
    }
    if !kix {
        let t: u8 = if tsum == 0 { 6 } else { tsum };
        let bt: u8 = if bsum == 0 { 6 } else { bsum };
        let check = (t - 1) * 6 + (bt - 1);
        proof {
            assert(check == checksum_spec(idx));
            let ext = idx.push(check as int);
            assert(ext.drop_last() =~= idx);
        }
        push_char(&mut bars, check);
        bars.push(BarState::Full);
        proof {
            let ext = idx.push(check as int);
            assert(ext.drop_last() =~= idx);
            assert(bars@ =~= rm4scc_bars(data@, kix));
        }
    }
    Ok(bars)
}


/// `1` where a bar has an ascender.
pub open spec fn ta(b: BarState) -> int {
    if asc(b) { 1 } else { 0 }
}

/// `1` where a bar has a descender.
pub open spec fn td(b: BarState) -> int {
    if desc(b) { 1 } else { 0 }
}

/// The ascender pattern of the four bars starting at `s`.
pub open spec fn asc_value(bars: Seq<BarState>, s: int) -> int {
    8 * ta(bars[s]) + 4 * ta(bars[s + 1]) + 2 * ta(bars[s + 2]) + ta(bars[s + 3])
}

/// The descender pattern of the four bars starting at `s`.
pub open spec fn desc_value(bars: Seq<BarState>, s: int) -> int {
    8 * td(bars[s]) + 4 * td(bars[s + 1]) + 2 * td(bars[s + 2]) + td(bars[s + 3])
}

/// The character index the four bars starting at `s` spell, if both halves are
/// "2 of 4" patterns.
pub open spec fn group_char(bars: Seq<BarState>, s: int) -> Option<int> {
    match (pat_value(asc_value(bars, s)), pat_value(desc_value(bars, s))) {
        (Some(t), Some(b)) => Some((t - 1) * 6 + (b - 1)),
        _ => None,
    }
}

/// The character indices of consecutive 4-bar groups, if every group spells one.
pub open spec fn groups_chars(body: Seq<BarState>) -> Option<Seq<int>> {
    let n = body.len() / 4;
    if forall|k: int| 0 <= k < n ==> (#[trigger] group_char(body, 4 * k)) is Some {
        Some(Seq::new(n as nat, |k: int| group_char(body, 4 * k).unwrap()))
    } else {
        None
    }
}

/// The bytes of character indices.
pub open spec fn ascii_of(idx: Seq<int>) -> Seq<u8> {
    Seq::new(idx.len(), |i: int| alphabet_char(idx[i]))
}

/// What decoding an RM4SCC bar sequence gives.
pub open spec fn rm4scc_decode_spec(bars: Seq<BarState>) -> Result<(PostalVariant, Seq<u8>), Error> {
    let n = bars.len();
    if n < 6 || (n - 2) % 4 != 0 || bars[0] != BarState::Ascender || bars[n - 1] != BarState::Full {
        Err(Error::Undecodable)
    } else {
        match groups_chars(bars.subrange(1, n - 1)) {
            None => Err(Error::Undecodable),
            Some(idx) => if checksum_spec(idx.drop_last()) == idx.last() {
                Ok((PostalVariant::RoyalMail, ascii_of(idx.drop_last())))
            } else {
                Err(Error::Undecodable)
            },
        }
    }
}

/// What decoding a KIX bar sequence gives.
pub open spec fn kix_decode_spec(bars: Seq<BarState>) -> Result<(PostalVariant, Seq<u8>), Error> {
    if bars.len() == 0 || bars.len() % 4 != 0 {
        Err(Error::Undecodable)
    } else {
        match groups_chars(bars) {
            None => Err(Error::Undecodable),
            Some(idx) => Ok((PostalVariant::KixCode, ascii_of(idx))),
        }
    }
}

fn value_of_pattern(p: u8) -> (r: Option<u8>)
    ensures
        r == (match pat_value(p as int) { Some(v) => Some(v as u8), None => None::<u8> }),
        r matches Some(v) ==> 1 <= v <= 6,
{
    if p == 3 { Some(1) } else if p == 5 { Some(2) } else if p == 6 { Some(3) } else if p == 9 {
        Some(4)
    } else if p == 10 { Some(5) } else if p == 12 { Some(6) } else { None }
}

fn bars_to_char(bars: &[BarState], s: usize) -> (r: Option<u8>)
    requires
        s + 4 <= bars@.len(),
    ensures
        r == (match group_char(bars@, s as int) { Some(c) => Some(c as u8), None => None::<u8> }),
        r matches Some(c) ==> c < 36,
{
    let mut a: u8 = 0;
    let mut d: u8 = 0;
    if bars[s].has_ascender() { a = a + 8; }
    if bars[s + 1].has_ascender() { a = a + 4; }
    if bars[s + 2].has_ascender() { a = a + 2; }
    if bars[s + 3].has_ascender() { a = a + 1; }
    if bars[s].has_descender() { d = d + 8; }
    if bars[s + 1].has_descender() { d = d + 4; }
    if bars[s + 2].has_descender() { d = d + 2; }
    if bars[s + 3].has_descender() { d = d + 1; }
    match (value_of_pattern(a), value_of_pattern(d)) {
        (Some(t), Some(b)) => Some((t - 1) * 6 + (b - 1)),
        _ => None,
    }
}

/// Decode a run of 4-bar groups into character indices.
fn decode_groups(body: &[BarState]) -> (r: Result<Vec<u8>, Error>)
    requires
        body@.len() % 4 == 0,
    ensures
        match groups_chars(body@) {
            Some(idx) => r matches Ok(v) && v@.len() == idx.len() && forall|k: int| 0 <= k < idx.len() ==> #[trigger] v@[k] == idx[k],
            None => r == Err::<Vec<u8>, Error>(Error::Undecodable),
        },
        r matches Ok(v) ==> forall|k: int| 0 <= k < v@.len() ==> #[trigger] v@[k] < 36,
{
    let blen = body.len();
    let n = blen / 4;
    let mut out: Vec<u8> = Vec::new();
    let mut k: usize = 0;
    while k < n
        invariant
            blen == body@.len(),
            n == blen / 4,
            body@.len() % 4 == 0,
            k <= n,
            out@.len() == k,
            forall|j: int| 0 <= j < k ==> (#[trigger] group_char(body@, 4 * j)) is Some,
            forall|j: int| 0 <= j < k ==> #[trigger] out@[j] == group_char(body@, 4 * j).unwrap(),
            forall|j: int| 0 <= j < k ==> #[trigger] out@[j] < 36,
        decreases n - k,
    {
        assert(4 * k + 4 <= blen);
        match bars_to_char(body, 4 * k) {
            Some(c) => out.push(c),
            None => {
                proof {
                    assert(!((group_char(body@, 4 * k)) is Some));
                }
                return Err(Error::Undecodable);
            },
        }
        k = k + 1;
    }
    proof {
        let idx = groups_chars(body@).unwrap();
        assert forall|j: int| 0 <= j < n implies #[trigger] out@[j] == idx[j] by {}
    }
    Ok(out)
}

fn indices_to_ascii(idx: &Vec<u8>) -> (out: Vec<u8>)
    requires
        forall|k: int| 0 <= k < idx@.len() ==> #[trigger] idx@[k] < 36,
    ensures
        out@.len() == idx@.len(),
        forall|k: int| 0 <= k < idx@.len() ==> #[trigger] out@[k] == alphabet_char(idx@[k] as int),
{
    let mut out: Vec<u8> = Vec::new();
    let mut k: usize = 0;
    while k < idx.len()
        invariant
            k <= idx@.len(),
            forall|j: int| 0 <= j < idx@.len() ==> #[trigger] idx@[j] < 36,
            out@.len() == k,
            forall|j: int| 0 <= j < k ==> #[trigger] out@[j] == alphabet_char(idx@[j] as int),
        decreases idx@.len() - k,
    {
        let c = idx[k];
        out.push(if c < 10 { c + 48 } else { c + 55 });
        k = k + 1;
    }
    out
}

/// The checksum character of character indices (all below 36).
#[verifier::rlimit(40)]
fn checksum_index(idx: &Vec<u8>, len: usize) -> (c: u8)
    requires
        len <= idx@.len(),
        forall|k: int| 0 <= k < idx@.len() ==> #[trigger] idx@[k] < 36,
    ensures
        c == checksum_spec(Seq::new(len as nat, |i: int| idx@[i] as int)),
{
    let ghost s = Seq::new(len as nat, |i: int| idx@[i] as int);
    let mut tsum: u8 = 0;
    let mut bsum: u8 = 0;
    let mut k: usize = 0;
    while k < len
        invariant
            len <= idx@.len(),
            forall|j: int| 0 <= j < idx@.len() ==> #[trigger] idx@[j] < 36,
            s == Seq::new(len as nat, |i: int| idx@[i] as int),
            k <= len,
            tsum == top_sum(s.take(k as int)) % 6,
            bsum == bottom_sum(s.take(k as int)) % 6,
        decreases len - k,
    {
        let c = idx[k];
        proof {
            lemma_sums_step(s, k as int);
            lemma_mod6_step(top_sum(s.take(k as int)), tsum as int, c as int / 6 + 1);
            lemma_mod6_step(bottom_sum(s.take(k as int)), bsum as int, c as int % 6 + 1);
        }
        tsum = (tsum + c / 6 + 1) % 6;
        bsum = (bsum + c % 6 + 1) % 6;
        k = k + 1;
    }
    proof {
        assert(s.take(len as int) =~= s);
    }
    let t: u8 = if tsum == 0 { 6 } else { tsum };
    let b: u8 = if bsum == 0 { 6 } else { bsum };
    (t - 1) * 6 + (b - 1)
}

/// Decode an RM4SCC bar sequence into the data characters (checksum verified and
/// removed).
pub fn decode_rm4scc(bars: &[BarState]) -> (r: Result<(PostalVariant, Vec<u8>), Error>)
    ensures
        match rm4scc_decode_spec(bars@) {
            Ok((v, d)) => r is Ok && r->Ok_0.0 == v && r->Ok_0.1@ == d,
            Err(e) => r == Err::<(PostalVariant, Vec<u8>), Error>(e),
        },
{
    let n = bars.len();
    if n < 6 || (n - 2) % 4 != 0 {
        return Err(Error::Undecodable);
    }
    if bars[0] != BarState::Ascender || bars[n - 1] != BarState::Full {
        return Err(Error::Undecodable);
    }
    let body = vstd::slice::slice_subrange(bars, 1, n - 1);
    let idx = match decode_groups(body) {
        Ok(v) => v,
        Err(e) => {
            return Err(e);
        },
    };
    let len = idx.len();
    let ghost gi = groups_chars(bars@.subrange(1, n - 1)).unwrap();
    proof {
        assert(Seq::new((len - 1) as nat, |i: int| idx@[i] as int) =~= gi.drop_last());
    }
    let check = checksum_index(&idx, len - 1);
    if check != idx[len - 1] {
        return Err(Error::Undecodable);
    }
    let all = indices_to_ascii(&idx);
    let mut data: Vec<u8> = Vec::new();
    let mut k: usize = 0;
    while k + 1 < len
        invariant
            len == all@.len(),
            len >= 1,
            k + 1 <= len,
            data@ == all@.subrange(0, k as int),
        decreases len - k,
    {
        data.push(all[k]);
        proof {
            assert(data@ =~= all@.subrange(0, k + 1));
        }
        k = k + 1;
    }
    proof {
        assert(data@ =~= ascii_of(gi.drop_last()));
    }
    Ok((PostalVariant::RoyalMail, data))
}

/// Decode a KIX bar sequence into its characters.
pub fn decode_kix(bars: &[BarState]) -> (r: Result<(PostalVariant, Vec<u8>), Error>)
    ensures
        match kix_decode_spec(bars@) {
            Ok((v, d)) => r is Ok && r->Ok_0.0 == v && r->Ok_0.1@ == d,
            Err(e) => r == Err::<(PostalVariant, Vec<u8>), Error>(e),
        },
{
    if bars.len() == 0 || bars.len() % 4 != 0 {
        return Err(Error::Undecodable);
    }
    let idx = match decode_groups(bars) {
        Ok(v) => v,
        Err(e) => {
            return Err(e);
        },
    };
    let data = indices_to_ascii(&idx);
    proof {
        assert(data@ =~= ascii_of(groups_chars(bars@).unwrap()));
    }
    Ok((PostalVariant::KixCode, data))
}

pub proof fn lemma_chars_bars(idx: Seq<int>)
    ensures
        chars_bars(idx).len() == 4 * idx.len(),
        forall|k: int, j: int|
            0 <= k < idx.len() && 0 <= j < 4 ==> chars_bars(idx)[4 * k + j] == #[trigger] char_bars(idx[k])[j],
    decreases idx.len(),
{
    if idx.len() > 0 {
        let init = idx.drop_last();
        lemma_chars_bars(init);
        assert forall|k: int, j: int|
            0 <= k < idx.len() && 0 <= j < 4 implies chars_bars(idx)[4 * k + j] == #[trigger] char_bars(idx[k])[j] by {
            if k < idx.len() - 1 {
                assert(idx[k] == init[k]);
                assert(chars_bars(init)[4 * k + j] == char_bars(init[k])[j]);
            }
        }
    }
}

/// The extended bits of a 4-bit pattern add back up to it.
proof fn lemma_pattern_value(p: int)
    requires
        0 <= p < 16,
    ensures
        8 * ((p / 8) % 2) + 4 * ((p / 4) % 2) + 2 * ((p / 2) % 2) + (p / 1) % 2 == p,
{
    let q = p as u8;
    assert(8 * ((q / 8) % 2) + 4 * ((q / 4) % 2) + 2 * ((q / 2) % 2) + (q / 1) % 2 == q) by (bit_vector)
        requires
            q < 16,
    ;
}

/// The four bars of a character spell the character.
proof fn lemma_char_group(bars: Seq<BarState>, s: int, c: int)
    requires
        0 <= c < 36,
        0 <= s,
        s + 4 <= bars.len(),
        forall|j: int| 0 <= j < 4 ==> bars[s + j] == #[trigger] char_bars(c)[j],
    ensures
        group_char(bars, s) == Some(c),
{
    let t = c / 6 + 1;
    let b = c % 6 + 1;
    lemma_pattern_value(pat4(t));
    lemma_pattern_value(pat4(b));
    assert(bars[s] == char_bars(c)[0]);
    assert(bars[s + 1] == char_bars(c)[1]);
    assert(bars[s + 2] == char_bars(c)[2]);
    assert(bars[s + 3] == char_bars(c)[3]);
    assert(asc_value(bars, s) == pat4(t));
    assert(desc_value(bars, s) == pat4(b));
    assert(pat_value(pat4(t)) == Some(t));
    assert(pat_value(pat4(b)) == Some(b));
}

proof fn lemma_groups_chars(idx: Seq<int>)
    requires
        forall|k: int| 0 <= k < idx.len() ==> 0 <= #[trigger] idx[k] < 36,
    ensures
        groups_chars(chars_bars(idx)) == Some(idx),
{
    let cb = chars_bars(idx);
    lemma_chars_bars(idx);
    assert(cb.len() / 4 == idx.len());
    assert forall|k: int| 0 <= k < idx.len() implies (#[trigger] group_char(cb, 4 * k)) == Some(idx[k]) by {
        assert forall|j: int| 0 <= j < 4 implies cb[4 * k + j] == #[trigger] char_bars(idx[k])[j] by {}
        lemma_char_group(cb, 4 * k, idx[k]);
    }
    assert(Seq::new(idx.len(), |k: int| group_char(cb, 4 * k).unwrap()) =~= idx);
}

pub proof fn lemma_indices(data: Seq<u8>)
    requires
        data_ok(data),
    ensures
        forall|k: int| 0 <= k < data.len() ==> 0 <= #[trigger] indices_of(data)[k] < 36,
        ascii_of(indices_of(data)) == data,
{
    assert forall|k: int| 0 <= k < data.len() implies 0 <= #[trigger] indices_of(data)[k] < 36 by {
        assert(char_index_spec(data[k]) is Some);
    }
    assert forall|k: int| 0 <= k < data.len() implies #[trigger] ascii_of(indices_of(data))[k] == data[k] by {
        assert(char_index_spec(data[k]) is Some);
    }
    assert(ascii_of(indices_of(data)) =~= data);
}

/// Decoding the bars of RM4SCC data gives the data back.
pub proof fn lemma_rm4scc_round_trip(data: Seq<u8>)
    requires
        data_ok(data),
    ensures
        rm4scc_decode_spec(rm4scc_bars(data, false)) == Ok::<(PostalVariant, Seq<u8>), Error>(
            (PostalVariant::RoyalMail, data),
        ),
{
    let idx = indices_of(data);
    lemma_indices(data);
    let cs = checksum_spec(idx);
    let ext = idx.push(cs);
    assert(0 <= cs < 36);
    assert forall|k: int| 0 <= k < ext.len() implies 0 <= #[trigger] ext[k] < 36 by {
        if k < idx.len() {
            assert(ext[k] == idx[k]);
        }
    }
    lemma_groups_chars(ext);
    lemma_chars_bars(ext);
    let bars = rm4scc_bars(data, false);
    let n = bars.len();
    assert(n == 4 * ext.len() + 2);
    assert(bars.subrange(1, n - 1) =~= chars_bars(ext));
    assert(ext.drop_last() =~= idx);
}

/// Decoding the bars of KIX data gives the data back.
pub proof fn lemma_kix_round_trip(data: Seq<u8>)
    requires
        data_ok(data),
    ensures
        kix_decode_spec(rm4scc_bars(data, true)) == Ok::<(PostalVariant, Seq<u8>), Error>(
            (PostalVariant::KixCode, data),
        ),
{
    let idx = indices_of(data);
    lemma_indices(data);
    lemma_groups_chars(idx);
    lemma_chars_bars(idx);
}

proof fn lemma_sums_step(s: Seq<int>, k: int)
    requires
        0 <= k < s.len(),
    ensures
        top_sum(s.take(k + 1)) == top_sum(s.take(k)) + s[k] / 6 + 1,
        bottom_sum(s.take(k + 1)) == bottom_sum(s.take(k)) + s[k] % 6 + 1,
{
    assert(s.take(k + 1).drop_last() =~= s.take(k));
    assert(s.take(k + 1).last() == s[k]);
}

proof fn lemma_mod6_step(total: int, acc: int, x: int)
    requires
        acc == total % 6,
    ensures
        (acc + x) % 6 == (total + x) % 6,
{
    assert((acc + x) % 6 == (total + x) % 6) by (nonlinear_arith)
        requires
            acc == total % 6,
    ;
}
} // verus!
