//! USPS Intelligent Mail Barcode (4-state, 65 bars), per USPS-B-3200: the
//! routing and tracking fields fold into one number; an 11-bit CRC guards it; the
//! number splits into ten codewords (base 636, then base 1365); each codeword maps
//! to a 13-bit character of an "n of 13" table, complemented where a CRC bit is set;
//! and the characters' bits place the 65 bars.
use vstd::prelude::*;
use super::bars::{BarState, asc, desc, bar_of};
use crate::error::Error;

verus! {

/// For each bar `k`, entries `4k … 4k+3`: the descender character and bit, then the
/// ascender character and bit (characters `A=0 … J=9`, bits `0` = least
/// significant … `12`).
pub open spec fn bar_map() -> Seq<u8> {
    seq![
        7, 2, 4, 3, 1, 10, 0, 0, 9, 12, 2, 8, 5, 5, 6, 11, 8, 9, 3, 1,
        0, 1, 5, 12, 2, 5, 1, 8, 4, 4, 9, 11, 6, 3, 8, 10, 3, 9, 7, 6,
        5, 11, 1, 4, 8, 5, 2, 12, 9, 10, 0, 2, 7, 1, 6, 7, 3, 6, 4, 9,
        0, 3, 8, 6, 6, 4, 2, 7, 1, 1, 9, 9, 7, 10, 5, 2, 4, 0, 3, 8,
        6, 2, 0, 4, 8, 11, 1, 0, 9, 8, 3, 12, 2, 6, 7, 7, 5, 1, 4, 10,
        1, 12, 6, 9, 7, 3, 8, 0, 5, 8, 9, 7, 4, 6, 2, 10, 3, 4, 0, 5,
        8, 4, 5, 7, 7, 11, 1, 9, 6, 0, 9, 6, 0, 6, 4, 8, 2, 1, 3, 2,
        5, 9, 8, 12, 4, 11, 6, 1, 9, 5, 7, 4, 3, 3, 1, 2, 0, 7, 2, 0,
        1, 3, 4, 1, 6, 10, 3, 5, 8, 7, 9, 4, 2, 11, 5, 6, 0, 8, 7, 12,
        4, 2, 8, 1, 5, 10, 3, 0, 9, 3, 0, 9, 6, 5, 2, 4, 7, 8, 1, 7,
        5, 0, 4, 5, 2, 3, 0, 10, 6, 12, 9, 2, 3, 11, 1, 6, 8, 8, 7, 9,
        5, 4, 0, 11, 1, 5, 2, 2, 9, 1, 4, 12, 8, 3, 6, 6, 7, 0, 3, 7,
        4, 7, 7, 5, 0, 12, 1, 11, 2, 9, 9, 0, 6, 8, 5, 3, 3, 10, 8, 2,
    ]
}

// ---------------------------------------------------------------------------
// Fields
// ---------------------------------------------------------------------------

/// The value of an ASCII digit.
pub open spec fn dig(b: u8) -> int {
    b - 48
}

/// `10^e`.
pub open spec fn tenpow(e: nat) -> int
    decreases e,
{
    if e == 0 { 1 } else { 10 * tenpow((e - 1) as nat) }
}

proof fn lemma_tenpow_pos(e: nat)
    ensures
        tenpow(e) >= 1,
    decreases e,
{
    if e > 0 {
        lemma_tenpow_pos((e - 1) as nat);
    }
}

proof fn lemma_tenpow_mono(a: nat, b: nat)
    requires
        a <= b,
    ensures
        tenpow(a) <= tenpow(b),
    decreases b - a,
{
    if a < b {
        lemma_tenpow_mono(a, (b - 1) as nat);
        lemma_tenpow_pos((b - 1) as nat);
    }
}

/// ASCII digits appended to `v` in base ten.
pub open spec fn fold10(v: int, d: Seq<u8>) -> int
    decreases d.len(),
{
    if d.len() == 0 { v } else { fold10(v, d.drop_last()) * 10 + dig(d.last()) }
}

/// The routing code's value with its length-dependent offset.
pub open spec fn routing_value_spec(r: Seq<u8>) -> int {
    if r.len() == 5 {
        fold10(0, r) + 1
    } else if r.len() == 9 {
        fold10(0, r) + 100_001
    } else if r.len() == 11 {
        fold10(0, r) + 1_000_100_001
    } else {
        0
    }
}

/// The number the tracking and routing fields fold into.
pub open spec fn imb_value(t: Seq<u8>, r: Seq<u8>) -> int {
    fold10((routing_value_spec(r) * 10 + dig(t[0])) * 5 + dig(t[1]), t.subrange(2, 20))
}

/// All ASCII digits.
pub open spec fn all_digits(d: Seq<u8>) -> bool {
    forall|i: int| 0 <= i < d.len() ==> 48 <= #[trigger] d[i] <= 57
}

/// Valid fields: a 20-digit tracking code whose second digit is 0–4, and a routing
/// code of 0, 5, 9 or 11 digits.
pub open spec fn fields_ok(t: Seq<u8>, r: Seq<u8>) -> bool {
    &&& t.len() == 20
    &&& all_digits(t)
    &&& t[1] <= 52
    &&& (r.len() == 0 || r.len() == 5 || r.len() == 9 || r.len() == 11)
    &&& all_digits(r)
}

fn digits_ok(d: &[u8]) -> (r: bool)
    ensures
        r == all_digits(d@),
{
    let mut i: usize = 0;
    while i < d.len()
        invariant
            i <= d@.len(),
            forall|k: int| 0 <= k < i ==> 48 <= #[trigger] d@[k] <= 57,
        decreases d@.len() - i,
    {
        if d[i] < 48 || d[i] > 57 {
            return false;
        }
        i = i + 1;
    }
    true
}

/// Validate the tracking and routing fields.
pub fn validate(tracking: &[u8], routing: &[u8]) -> (r: Result<(), Error>)
    ensures
        r is Ok <==> fields_ok(tracking@, routing@),
        r is Err ==> r == Err::<(), Error>(Error::InvalidData),
{
    if tracking.len() != 20 || !digits_ok(tracking) {
        return Err(Error::InvalidData);
    }
    if tracking[1] > 52 {
        return Err(Error::InvalidData);
    }
    let n = routing.len();
    if !(n == 0 || n == 5 || n == 9 || n == 11) || !digits_ok(routing) {
        return Err(Error::InvalidData);
    }
    Ok(())
}

proof fn lemma_fold10_bound(v: int, d: Seq<u8>)
    requires
        0 <= v,
        all_digits(d),
    ensures
        0 <= fold10(v, d) < (v + 1) * tenpow(d.len()),
    decreases d.len(),
{
    lemma_tenpow_pos(d.len());
    if d.len() == 0 {
        assert((v + 1) * 1 == v + 1);
    } else {
        let init = d.drop_last();
        assert(all_digits(init)) by {
            assert forall|i: int| 0 <= i < init.len() implies 48 <= #[trigger] init[i] <= 57 by {
                assert(init[i] == d[i]);
            }
        }
        lemma_fold10_bound(v, init);
        assert(48 <= d.last() <= 57);
        let p = tenpow(init.len());
        let q = tenpow(d.len());
        lemma_tenpow_pos(init.len());
        assert(q == p * 10);
        let f = fold10(v, init);
        assert(f * 10 + 9 < (v + 1) * q) by (nonlinear_arith)
            requires
                0 <= f < (v + 1) * p,
                p >= 1,
                q == p * 10,
        ;
        assert(fold10(v, d) == f * 10 + dig(d.last()));
    }
}

/// Fold ASCII digits into `v` in base ten.
fn fold_digits(v: u128, d: &[u8], bound: Ghost<int>) -> (r: u128)
    requires
        all_digits(d@),
        v <= bound@,
        (bound@ + 1) * tenpow(d@.len()) <= u128::MAX,
    ensures
        r == fold10(v as int, d@),
{
    let mut acc = v;
    let mut i: usize = 0;
    while i < d.len()
        invariant
            all_digits(d@),
            i <= d@.len(),
            v <= bound@,
            (bound@ + 1) * tenpow(d@.len()) <= u128::MAX,
            acc == fold10(v as int, d@.take(i as int)),
        decreases d@.len() - i,
    {
        proof {
            let t = d@.take(i + 1);
            assert(t.drop_last() =~= d@.take(i as int));
            assert(all_digits(t)) by {
                assert forall|k: int| 0 <= k < t.len() implies 48 <= #[trigger] t[k] <= 57 by {
                    assert(t[k] == d@[k]);
                }
            }
            lemma_fold10_bound(v as int, t);
            lemma_tenpow_pos(t.len());
            lemma_tenpow_mono(t.len(), d@.len());
            let pt = tenpow(t.len());
            let pd = tenpow(d@.len());
            assert((v + 1) * pt <= (bound@ + 1) * pd) by (nonlinear_arith)
                requires
                    v <= bound@,
                    0 < pt <= pd,
                    0 <= v,
            ;
            assert(48 <= d@[i as int] <= 57);
        }
        acc = acc * 10 + (d[i] - 48) as u128;
        i = i + 1;
    }
    proof {
        assert(d@.take(d@.len() as int) =~= d@);
    }
    acc
}


/// The routing code's value with its length-dependent offset.
fn routing_value(routing: &[u8]) -> (v: u128)
    requires
        all_digits(routing@),
        routing@.len() == 0 || routing@.len() == 5 || routing@.len() == 9 || routing@.len() == 11,
    ensures
        v == routing_value_spec(routing@),
        v <= 101_000_100_000,
{
    let n = routing.len();
    if n == 0 {
        return 0;
    }
    proof {
        lemma_tenpow_mono(n as nat, 11);
        assert(tenpow(11) == 100_000_000_000) by {
            reveal_with_fuel(tenpow, 12);
        }
        lemma_fold10_bound(0, routing@);
    }
    let h = fold_digits(0, routing, Ghost(0));
    if n == 5 {
        h + 1
    } else if n == 9 {
        h + 100_001
    } else {
        h + 1_000_100_001
    }
}

/// An upper bound on the folded fields.
pub open spec fn value_bound() -> int {
    (101_000_100_000int * 10 + 9) * 5 + 4 + 1
}

/// Fold routing and tracking fields into one number.
fn to_binary(tracking: &[u8], routing: &[u8]) -> (v: u128)
    requires
        fields_ok(tracking@, routing@),
    ensures
        v == imb_value(tracking@, routing@),
        v < value_bound() * tenpow(18),
{
    let r = routing_value(routing);
    proof {
        assert(48 <= tracking@[0] <= 57 && 48 <= tracking@[1] <= 52);
    }
    let v = (r * 10 + (tracking[0] - 48) as u128) * 5 + (tracking[1] - 48) as u128;
    let rest = vstd::slice::slice_subrange(tracking, 2, 20);
    proof {
        assert(rest@ == tracking@.subrange(2, 20));
        assert(all_digits(rest@)) by {
            assert forall|i: int| 0 <= i < rest@.len() implies 48 <= #[trigger] rest@[i] <= 57 by {
                assert(rest@[i] == tracking@[i + 2]);
            }
        }
        assert(tenpow(18) == 1_000_000_000_000_000_000) by {
            reveal_with_fuel(tenpow, 19);
        }
        lemma_fold10_bound(v as int, rest@);
    }
    fold_digits(v, rest, Ghost(value_bound() - 1))
}

// ---------------------------------------------------------------------------
// Frame check sequence
// ---------------------------------------------------------------------------

/// One bit step of the CRC-11 (generator `0x0F35`).
pub open spec fn crc_step(fcs: u16, data: u16) -> u16 {
    if (fcs ^ data) & 0x400 != 0 {
        ((fcs << 1u16) ^ 0x0F35) & 0x7FF
    } else {
        (fcs << 1u16) & 0x7FF
    }
}

/// `k` bit steps, the data shifting left after each.
pub open spec fn crc_bits(fcs: u16, data: u16, k: nat) -> u16
    decreases k,
{
    if k == 0 { fcs } else { crc_bits(crc_step(fcs, data), data << 1u16, (k - 1) as nat) }
}

/// The CRC run over whole bytes, eight bits each.
pub open spec fn crc_bytes(fcs: u16, bytes: Seq<u8>) -> u16
    decreases bytes.len(),
{
    if bytes.len() == 0 {
        fcs
    } else {
        crc_bits(crc_bytes(fcs, bytes.drop_last()), (bytes.last() as u16) << 3u16, 8)
    }
}

/// The 11-bit frame check sequence of the 13 value bytes: the first byte's low six
/// bits, then the other twelve bytes.
pub open spec fn crc11_spec(bytes: Seq<u8>) -> u16 {
    crc_bytes(crc_bits(0x7FF, (bytes[0] as u16) << 5u16, 6), bytes.subrange(1, 13))
}

fn crc_run(fcs: u16, data: u16, k: u32) -> (r: u16)
    ensures
        r == crc_bits(fcs, data, k as nat),
    decreases k,
{
    if k == 0 {
        return fcs;
    }
    let next = if (fcs ^ data) & 0x400 != 0 {
        ((fcs << 1u16) ^ 0x0F35) & 0x7FF
    } else {
        (fcs << 1u16) & 0x7FF
    };
    crc_run(next, data << 1u16, k - 1)
}

/// The 11-bit CRC frame check sequence over the 13-byte value.
fn crc11_for(bytes: &Vec<u8>) -> (fcs: u16)
    requires
        bytes@.len() == 13,
    ensures
        fcs == crc11_spec(bytes@),
{
    let mut fcs = crc_run(0x7FF, (bytes[0] as u16) << 5u16, 6);
    let ghost first = fcs;
    let mut i: usize = 1;
    while i < 13
        invariant
            1 <= i <= 13,
            bytes@.len() == 13,
            first == crc_bits(0x7FF, (bytes@[0] as u16) << 5u16, 6),
            fcs == crc_bytes(first, bytes@.subrange(1, i as int)),
        decreases 13 - i,
    {
        proof {
            assert(bytes@.subrange(1, i + 1).drop_last() =~= bytes@.subrange(1, i as int));
        }
        fcs = crc_run(fcs, (bytes[i] as u16) << 3u16, 8);
        i = i + 1;
    }
    fcs
}

// ---------------------------------------------------------------------------
// Bytes and codewords
// ---------------------------------------------------------------------------

/// `256^e`.
pub open spec fn p256(e: nat) -> int
    decreases e,
{
    if e == 0 { 1 } else { p256((e - 1) as nat) * 256 }
}

/// `1365^e`.
pub open spec fn p1365(e: nat) -> int
    decreases e,
{
    if e == 0 { 1 } else { p1365((e - 1) as nat) * 1365 }
}

/// The low 13 bytes of `v`, most significant first.
pub open spec fn bytes13(v: int) -> Seq<u8> {
    Seq::new(13, |k: int| ((v / p256((12 - k) as nat)) % 256) as u8)
}

proof fn lemma_p256_pos(e: nat)
    ensures
        p256(e) >= 1,
    decreases e,
{
    if e > 0 {
        lemma_p256_pos((e - 1) as nat);
    }
}

proof fn lemma_p1365_pos(e: nat)
    ensures
        p1365(e) >= 1,
    decreases e,
{
    if e > 0 {
        lemma_p1365_pos((e - 1) as nat);
    }
}

/// The low 13 bytes of `value`, most significant first.
fn binary_bytes(value: u128) -> (out: Vec<u8>)
    ensures
        out@ == bytes13(value as int),
{
    let mut pw: u128 = 79228162514264337593543950336;
    proof {
        assert(p256(12) == 79228162514264337593543950336) by {
            reveal_with_fuel(p256, 13);
        }
    }
    let mut out: Vec<u8> = Vec::new();
    let mut k: usize = 0;
    while k < 13
        invariant
            k <= 13,
            k < 13 ==> pw == p256((12 - k) as nat),
            out@.len() == k,
            forall|j: int| 0 <= j < k ==> #[trigger] out@[j] == bytes13(value as int)[j],
        decreases 13 - k,
    {
        proof {
            lemma_p256_pos((12 - k) as nat);
        }
        out.push(((value / pw) % 256) as u8);
        if k < 12 {
            proof {
                assert(p256((12 - k) as nat) == p256((11 - k) as nat) * 256);
                lemma_p256_pos((11 - k) as nat);
            }
            pw = pw / 256;
        }
        k = k + 1;
    }
    proof {
        assert(out@ =~= bytes13(value as int));
    }
    out
}

/// The ten codewords of value `v` and check sequence `fcs`: `v mod 636` doubled
/// (the orientation bit), eight base-1365 digits, and the rest, raised by 659 where
/// the top CRC bit is set.
pub open spec fn cw_spec(v: int, fcs: u16) -> Seq<int> {
    Seq::new(
        10,
        |i: int|
            if i == 9 {
                2 * (v % 636)
            } else if i == 0 {
                (v / 636) / p1365(8) + (if fcs & 0x400 != 0 { 659int } else { 0int })
            } else {
                ((v / 636) / p1365((8 - i) as nat)) % 1365
            },
    )
}

/// The ten codewords.
fn to_codewords(value: u128, fcs: u16) -> (cw: Vec<u16>)
    requires
        value < value_bound() * tenpow(18),
    ensures
        cw@.len() == 10,
        forall|i: int| 0 <= i < 10 ==> #[trigger] cw@[i] == cw_spec(value as int, fcs)[i],
        forall|i: int| 0 <= i < 10 ==> #[trigger] cw@[i] < 1365,
{
    proof {
        assert(tenpow(18) == 1_000_000_000_000_000_000) by {
            reveal_with_fuel(tenpow, 19);
        }
        assert(p1365(8) == 12_052_057_944_074_269_250_390_625) by {
            reveal_with_fuel(p1365, 9);
        }
    }
    let q0 = value / 636;
    let mut cw: Vec<u16> = Vec::new();
    let mut k: usize = 0;
    while k < 10
        invariant
            k <= 10,
            cw@.len() == k,
            forall|j: int| 0 <= j < k ==> #[trigger] cw@[j] == 0,
        decreases 10 - k,
    {
        cw.push(0);
        k = k + 1;
    }
    cw.set(9, ((value % 636) * 2) as u16);
    let mut cur = q0;
    let mut slot: usize = 8;
    proof {
        assert(p1365(0) == 1);
        assert((q0 as int) / 1 == q0 as int);
    }
    while slot >= 1
        invariant
            0 <= slot <= 8,
            cw@.len() == 10,
            q0 == value / 636,
            cur == (q0 as int) / p1365((8 - slot) as nat),
            cw@[9] == cw_spec(value as int, fcs)[9],
            forall|j: int| slot < j < 9 ==> #[trigger] cw@[j] == cw_spec(value as int, fcs)[j],
            forall|j: int| slot < j < 10 ==> #[trigger] cw@[j] < 1365,
        decreases slot,
    {
        proof {
            lemma_p1365_pos((8 - slot) as nat);
            vstd::arithmetic::div_mod::lemma_div_denominator(q0 as int, p1365((8 - slot) as nat), 1365);
            assert(p1365((9 - slot) as nat) == p1365((8 - slot) as nat) * 1365);
        }
        cw.set(slot, (cur % 1365) as u16);
        cur = cur / 1365;
        slot = slot - 1;
    }
    proof {
        assert(value < 5_050_005_000_050 * 1_000_000_000_000_000_000);
        assert(q0 <= 7_940_259_434_040_880_503_144_654_088);
        assert(cur == (q0 as int) / 12_052_057_944_074_269_250_390_625);
        assert(cur <= 659);
    }
    let top: u16 = if fcs & 0x400 != 0 { 659 } else { 0 };
    cw.set(0, cur as u16 + top);
    cw
}

// ---------------------------------------------------------------------------
// The "n of 13" character tables
// ---------------------------------------------------------------------------

/// How many bits of `x` are set.
pub open spec fn popcount(x: int) -> int
    decreases x,
{
    if x <= 0 { 0 } else { x % 2 + popcount(x / 2) }
}

/// `x` read backwards over `k` more bits onto `r`.
pub open spec fn rev_acc(x: int, r: int, k: nat) -> int
    decreases k,
{
    if k == 0 { r } else { rev_acc(x / 2, 2 * r + x % 2, (k - 1) as nat) }
}

/// The low 13 bits of `x` in reverse order.
pub open spec fn rev13(x: int) -> int {
    rev_acc(x, 0, 13)
}

/// Writing `v` at `i`, where `i` lies inside the table.
pub open spec fn put(t: Seq<u16>, i: int, v: int) -> Seq<u16> {
    if 0 <= i < t.len() { t.update(i, v as u16) } else { t }
}

/// The table-building state after the values below `c`: the table, the next slot
/// from the front, the next slot from the back.
pub open spec fn gen(n: int, len: nat, c: nat) -> (Seq<u16>, int, int)
    decreases c,
{
    if c == 0 {
        (Seq::new(len, |_i: int| 0u16), 0, len - 1)
    } else {
        let (t, lower, upper) = gen(n, len, (c - 1) as nat);
        let x = (c - 1) as int;
        let r = rev13(x);
        if popcount(x) != n || r < x {
            (t, lower, upper)
        } else if r == x {
            (put(t, upper, x), lower, upper - 1)
        } else {
            (put(put(t, lower, x), lower + 1, r), lower + 2, upper)
        }
    }
}

/// The "n of 13" table: the 13-bit values with `n` bits set, a value and its
/// reversal side by side from the front, palindromes from the back.
pub open spec fn nof13(n: int, len: nat) -> Seq<u16> {
    gen(n, len, 8192).0
}

fn popcount13(x: u16) -> (c: u16)
    requires
        x < 8192,
    ensures
        c == popcount(x as int),
        c <= 13,
{
    let mut v = x;
    let mut c: u16 = 0;
    let mut k: u64 = 0;
    proof {
        assert(pw2k(13) == 8192) by {
            reveal_with_fuel(pw2k, 14);
        }
    }
    while k < 13
        invariant
            k <= 13,
            v < pw2k((13 - k) as nat),
            c <= k,
            c + popcount(v as int) == popcount(x as int),
        decreases 13 - k,
    {
        proof {
            assert(pw2k((13 - k) as nat) == 2 * pw2k((12 - k) as nat));
        }
        c = c + v % 2;
        v = v / 2;
        k = k + 1;
    }
    proof {
        assert(pw2k(0) == 1);
        assert(v == 0);
    }
    c
}

fn reverse13(x: u16) -> (r: u16)
    requires
        x < 8192,
    ensures
        r == rev13(x as int),
        r < 8192,
{
    let mut v = x;
    let mut r: u16 = 0;
    let mut k: u64 = 13;
    while k > 0
        invariant
            k <= 13,
            r < pw2k((13 - k) as nat),
            rev_acc(v as int, r as int, k as nat) == rev13(x as int),
        decreases k,
    {
        proof {
            assert(pw2k((13 - k + 1) as nat) == 2 * pw2k((13 - k) as nat));
            lemma_pw2k_le((13 - k + 1) as nat);
        }
        r = 2 * r + v % 2;
        v = v / 2;
        k = k - 1;
    }
    proof {
        assert(pw2k(13) == 8192) by {
            reveal_with_fuel(pw2k, 14);
        }
    }
    r
}

/// `2^e`.
pub open spec fn pw2k(e: nat) -> int
    decreases e,
{
    if e == 0 { 1 } else { 2 * pw2k((e - 1) as nat) }
}

proof fn lemma_pw2k_le(e: nat)
    requires
        e <= 13,
    ensures
        1 <= pw2k(e) <= 8192,
    decreases e,
{
    if e > 0 {
        lemma_pw2k_le((e - 1) as nat);
    }
    if e == 13 {
        assert(pw2k(13) == 8192) by {
            reveal_with_fuel(pw2k, 14);
        }
    } else {
        lemma_pw2k_mono(e, 13);
        assert(pw2k(13) == 8192) by {
            reveal_with_fuel(pw2k, 14);
        }
    }
}

proof fn lemma_pw2k_mono(a: nat, b: nat)
    requires
        a <= b,
    ensures
        pw2k(a) <= pw2k(b),
    decreases b - a,
{
    if a < b {
        lemma_pw2k_mono(a, (b - 1) as nat);
        lemma_pw2k_pos((b - 1) as nat);
    }
}

proof fn lemma_pw2k_pos(e: nat)
    ensures
        pw2k(e) >= 1,
    decreases e,
{
    if e > 0 {
        lemma_pw2k_pos((e - 1) as nat);
    }
}

/// Build the "n of 13" table of `len` entries.
fn init_nof13(n: u16, len: usize) -> (table: Vec<u16>)
    requires
        1 <= len <= 2000,
    ensures
        table@ == nof13(n as int, len as nat),
{
    let mut table: Vec<u16> = Vec::new();
    let mut z: usize = 0;
    while z < len
        invariant
            z <= len,
            table@ == Seq::new(z as nat, |_i: int| 0u16),
        decreases len - z,
    {
        table.push(0);
        z = z + 1;
        proof {
            assert(table@ =~= Seq::new(z as nat, |_i: int| 0u16));
        }
    }
    let mut lower: usize = 0;
    let mut upper: i64 = (len - 1) as i64;
    let mut count: u16 = 0;
    while count < 8192
        invariant
            1 <= len <= 2000,
            count <= 8192,
            table@.len() == len,
            gen(n as int, len as nat, count as nat) == (table@, lower as int, upper as int),
            lower <= 2 * count,
            upper <= len - 1,
            upper >= -(count as int) - 1,
        decreases 8192 - count,
    {
        let pc = popcount13(count);
        let rev = reverse13(count);
        if pc != n || rev < count {
        } else if rev == count {
            if 0 <= upper && upper < len as i64 {
                table.set(upper as usize, count);
            }
            upper = upper - 1;
        } else {
            if lower < len {
                table.set(lower, count);
            }
            if lower + 1 < len {
                table.set(lower + 1, rev);
            }
            lower = lower + 2;
        }
        count = count + 1;
    }
    table
}

// ---------------------------------------------------------------------------
// Characters and bars
// ---------------------------------------------------------------------------

/// The 13-bit character of codeword `cw` (0–1364).
pub open spec fn char_spec(cw: int) -> int {
    if cw < 1287 { nof13(5, 1287)[cw] as int } else { nof13(2, 78)[cw - 1287] as int }
}

/// Bit `i` of the check sequence is set.
pub open spec fn fcs_bit(fcs: u16, i: int) -> bool {
    (fcs as int / pw2k(i as nat)) % 2 == 1
}

/// The ten characters: each codeword's character, complemented where its CRC bit
/// is set.
pub open spec fn chars_spec(cw: Seq<int>, fcs: u16) -> Seq<int> {
    Seq::new(10, |i: int| if fcs_bit(fcs, i) { 8191 - char_spec(cw[i]) } else { char_spec(cw[i]) })
}

/// Bit `b` of character `c` of `chars`.
pub open spec fn cbit(chars: Seq<int>, c: int, b: int) -> bool {
    (chars[c] / pw2k(b as nat)) % 2 == 1
}

/// The 65 bars the characters place.
pub open spec fn bars_spec(chars: Seq<int>) -> Seq<BarState> {
    Seq::new(65, |k: int| bar_of(
        cbit(chars, bar_map()[4 * k + 2] as int, bar_map()[4 * k + 3] as int),
        cbit(chars, bar_map()[4 * k] as int, bar_map()[4 * k + 1] as int),
    ))
}

/// The bars of valid tracking and routing fields.
pub open spec fn imb_bars(t: Seq<u8>, r: Seq<u8>) -> Seq<BarState> {
    let v = imb_value(t, r);
    let fcs = crc11_spec(bytes13(v));
    bars_spec(chars_spec(cw_spec(v, fcs), fcs))
}

fn bit_of(x: u16, b: u16) -> (r: bool)
    requires
        b <= 13,
    ensures
        r == ((x as int / pw2k(b as nat)) % 2 == 1),
{
    let mut v = x;
    let mut k: u16 = 0;
    while k < b
        invariant
            k <= b,
            b <= 13,
            v as int == (x as int) / pw2k(k as nat),
        decreases b - k,
    {
        proof {
            lemma_pw2k_pos(k as nat);
            vstd::arithmetic::div_mod::lemma_div_denominator(x as int, pw2k(k as nat), 2);
            assert(pw2k((k + 1) as nat) == 2 * pw2k(k as nat));
            assert(pw2k(k as nat) * 2 == 2 * pw2k(k as nat));
        }
        v = v / 2;
        k = k + 1;
    }
    v % 2 == 1
}

/// The bar-to-character map.
fn bar_map_table() -> (t: [u8; 260])
    ensures
        t@ == bar_map(),
{
    let t: [u8; 260] = [
        7, 2, 4, 3, 1, 10, 0, 0, 9, 12, 2, 8, 5, 5, 6, 11, 8, 9, 3, 1,
        0, 1, 5, 12, 2, 5, 1, 8, 4, 4, 9, 11, 6, 3, 8, 10, 3, 9, 7, 6,
        5, 11, 1, 4, 8, 5, 2, 12, 9, 10, 0, 2, 7, 1, 6, 7, 3, 6, 4, 9,
        0, 3, 8, 6, 6, 4, 2, 7, 1, 1, 9, 9, 7, 10, 5, 2, 4, 0, 3, 8,
        6, 2, 0, 4, 8, 11, 1, 0, 9, 8, 3, 12, 2, 6, 7, 7, 5, 1, 4, 10,
        1, 12, 6, 9, 7, 3, 8, 0, 5, 8, 9, 7, 4, 6, 2, 10, 3, 4, 0, 5,
        8, 4, 5, 7, 7, 11, 1, 9, 6, 0, 9, 6, 0, 6, 4, 8, 2, 1, 3, 2,
        5, 9, 8, 12, 4, 11, 6, 1, 9, 5, 7, 4, 3, 3, 1, 2, 0, 7, 2, 0,
        1, 3, 4, 1, 6, 10, 3, 5, 8, 7, 9, 4, 2, 11, 5, 6, 0, 8, 7, 12,
        4, 2, 8, 1, 5, 10, 3, 0, 9, 3, 0, 9, 6, 5, 2, 4, 7, 8, 1, 7,
        5, 0, 4, 5, 2, 3, 0, 10, 6, 12, 9, 2, 3, 11, 1, 6, 8, 8, 7, 9,
        5, 4, 0, 11, 1, 5, 2, 2, 9, 1, 4, 12, 8, 3, 6, 6, 7, 0, 3, 7,
        4, 7, 7, 5, 0, 12, 1, 11, 2, 9, 9, 0, 6, 8, 5, 3, 3, 10, 8, 2,
    ];
    proof {
        assert(t@ =~= bar_map());
    }
    t
}

/// Codewords to characters, then characters to the 65 bars.
fn to_bars(cw: &Vec<u16>, fcs: u16, five: &Vec<u16>, two: &Vec<u16>) -> (bars: Vec<BarState>)
    requires
        cw@.len() == 10,
        forall|i: int| 0 <= i < 10 ==> #[trigger] cw@[i] < 1365,
        five@ == nof13(5, 1287),
        two@ == nof13(2, 78),
    ensures
        bars@ == bars_spec(chars_spec(Seq::new(10, |i: int| cw@[i] as int), fcs)),
{
    let ghost cws = Seq::new(10, |i: int| cw@[i] as int);
    let ghost chs = chars_spec(cws, fcs);
    let mut chars: Vec<u16> = Vec::new();
    let mut i: usize = 0;
    while i < 10
        invariant
            i <= 10,
            cw@.len() == 10,
            forall|j: int| 0 <= j < 10 ==> #[trigger] cw@[j] < 1365,
            five@ == nof13(5, 1287),
            two@ == nof13(2, 78),
            cws == Seq::new(10, |j: int| cw@[j] as int),
            chs == chars_spec(cws, fcs),
            chars@.len() == i,
            forall|j: int| 0 <= j < i ==> #[trigger] chars@[j] as int == chs[j],
            forall|j: int| 0 <= j < i ==> #[trigger] chars@[j] < 8192,
        decreases 10 - i,
    {
        let c = cw[i];
        proof {
            lemma_table_values(5, 1287);
            lemma_table_values(2, 78);
        }
        let base: u16 = if c < 1287 { five[c as usize] } else { two[(c - 1287) as usize] };
        let neg = bit_of(fcs, i as u16);
        let ch = if neg { 8191 - base } else { base };
        chars.push(ch);
        i = i + 1;
    }
    let map = bar_map_table();
    let mut bars: Vec<BarState> = Vec::new();
    let mut k: usize = 0;
    while k < 65
        invariant
            k <= 65,
            map@ == bar_map(),
            chars@.len() == 10,
            forall|j: int| 0 <= j < 10 ==> #[trigger] chars@[j] as int == chs[j],
            forall|j: int| 0 <= j < 260 ==> #[trigger] bar_map()[j] < 13 || true,
            bars@.len() == k,
            forall|j: int| 0 <= j < k ==> #[trigger] bars@[j] == bars_spec(chs)[j],
        decreases 65 - k,
    {
        proof {
            lemma_bar_map_ranges();
        }
        let dc = map[4 * k] as usize;
        let db = map[4 * k + 1] as u16;
        let ac = map[4 * k + 2] as usize;
        let ab = map[4 * k + 3] as u16;
        let d = bit_of(chars[dc], db);
        let a = bit_of(chars[ac], ab);
        bars.push(BarState::from_parts(a, d));
        k = k + 1;
    }
    proof {
        assert(bars@ =~= bars_spec(chs));
    }
    bars
}

/// The bar map names characters 0–9 and bits 0–12.
proof fn lemma_bar_map_ranges()
    ensures
        forall|j: int| 0 <= j < 65 ==> #[trigger] bar_map()[4 * j] < 10 && bar_map()[4 * j + 1] < 13
            && bar_map()[4 * j + 2] < 10 && bar_map()[4 * j + 3] < 13,
{
    assert forall|j: int| 0 <= j < 65 implies #[trigger] bar_map()[4 * j] < 10 && bar_map()[4 * j + 1] < 13
        && bar_map()[4 * j + 2] < 10 && bar_map()[4 * j + 3] < 13 by {
        lemma_bar_map_entry(j);
    }
}

proof fn lemma_bar_map_entry(j: int)
    requires
        0 <= j < 65,
    ensures
        bar_map()[4 * j] < 10 && bar_map()[4 * j + 1] < 13 && bar_map()[4 * j + 2] < 10 && bar_map()[4 * j + 3] < 13,
{
    let m = bar_map();
    assert(forall|i: int| 0 <= i < 260 ==> #[trigger] m[i] <= 12);
}

/// Table entries are 13-bit values.
proof fn lemma_table_values(n: int, len: nat)
    ensures
        nof13(n, len).len() == len,
        forall|i: int| 0 <= i < len ==> #[trigger] nof13(n, len)[i] < 8192,
{
    lemma_gen_values(n, len, 8192);
}

proof fn lemma_gen_values(n: int, len: nat, c: nat)
    requires
        c <= 8192,
    ensures
        gen(n, len, c).0.len() == len,
        forall|i: int| 0 <= i < len ==> #[trigger] gen(n, len, c).0[i] < 8192,
    decreases c,
{
    if c > 0 {
        lemma_gen_values(n, len, (c - 1) as nat);
        lemma_rev13_range((c - 1) as int);
    }
}

/// Reversing 13 bits stays within 13 bits.
proof fn lemma_rev13_range(x: int)
    requires
        0 <= x < 8192,
    ensures
        0 <= rev13(x) < 8192,
{
    lemma_rev_acc_range(x, 0, 13);
    assert(pw2k(13) == 8192) by {
        reveal_with_fuel(pw2k, 14);
    }
}

proof fn lemma_rev_acc_range(x: int, r: int, k: nat)
    requires
        0 <= x,
        0 <= r < pw2k((13 - k) as nat),
        k <= 13,
    ensures
        0 <= rev_acc(x, r, k) < pw2k(13),
    decreases k,
{
    if k == 0 {
    } else {
        assert(pw2k((13 - k + 1) as nat) == 2 * pw2k((13 - k) as nat));
        lemma_rev_acc_range(x / 2, 2 * r + x % 2, (k - 1) as nat);
    }
}

/// Encode the tracking and routing fields into the 65 bars.
pub fn encode(tracking: &[u8], routing: &[u8]) -> (r: Result<Vec<BarState>, Error>)
    ensures
        fields_ok(tracking@, routing@) ==> r is Ok && r->Ok_0@ == imb_bars(tracking@, routing@),
        !fields_ok(tracking@, routing@) ==> r == Err::<Vec<BarState>, Error>(Error::InvalidData),
{
    if validate(tracking, routing).is_err() {
        return Err(Error::InvalidData);
    }
    let value = to_binary(tracking, routing);
    let bytes = binary_bytes(value);
    let fcs = crc11_for(&bytes);
    let cw = to_codewords(value, fcs);
    let five = init_nof13(5, 1287);
    let two = init_nof13(2, 78);
    let bars = to_bars(&cw, fcs, &five, &two);
    proof {
        let v = imb_value(tracking@, routing@);
        assert(Seq::new(10, |i: int| cw@[i] as int) =~= cw_spec(v, fcs));
    }
    Ok(bars)
}

// ---------------------------------------------------------------------------
// Decoding
// ---------------------------------------------------------------------------

/// The characters gathered from the first `k` bars: each bar sets its descender
/// bit and its ascender bit.
pub open spec fn gather(bars: Seq<BarState>, k: nat) -> Seq<u16>
    decreases k,
{
    if k == 0 {
        Seq::new(10, |_i: int| 0u16)
    } else {
        let g = gather(bars, (k - 1) as nat);
        let j = k - 1;
        let m = bar_map();
        let dc = m[4 * j] as int;
        let db = m[4 * j + 1];
        let ac = m[4 * j + 2] as int;
        let ab = m[4 * j + 3];
        let g1 = if desc(bars[j]) { g.update(dc, g[dc] | (1u16 << db)) } else { g };
        if asc(bars[j]) { g1.update(ac, g1[ac] | (1u16 << ab)) } else { g1 }
    }
}

/// The first index of `c` in `t` at or after `i`.
pub open spec fn find(t: Seq<u16>, c: int, i: nat) -> Option<int>
    decreases t.len() - i,
{
    if i >= t.len() { None } else if t[i as int] == c { Some(i as int) } else { find(t, c, i + 1) }
}

/// The codeword of a plain (not complemented) character.
pub open spec fn char_cw(base: int) -> Option<int> {
    let p = popcount(base);
    if p == 5 {
        find(nof13(5, 1287), base, 0)
    } else if p == 2 {
        match find(nof13(2, 78), base, 0) {
            Some(i) => Some(i + 1287),
            None => None,
        }
    } else {
        None
    }
}

/// The codeword of a character and whether it was complemented.
pub open spec fn unchar(c: int) -> Option<(int, bool)> {
    let p = popcount(c);
    if p == 5 || p == 2 {
        match char_cw(c) { Some(w) => Some((w, false)), None => None }
    } else if p == 8 || p == 11 {
        match char_cw(8191 - c) { Some(w) => Some((w, true)), None => None }
    } else {
        None
    }
}

/// `c0` followed by base-1365 digits.
pub open spec fn horner1365(c0: int, ds: Seq<int>) -> int
    decreases ds.len(),
{
    if ds.len() == 0 { c0 } else { horner1365(c0, ds.drop_last()) * 1365 + ds.last() }
}

/// The low check-sequence bits the complemented characters carry.
pub open spec fn neg_bits(flags: Seq<bool>, k: nat) -> int
    decreases k,
{
    if k == 0 { 0 } else { neg_bits(flags, (k - 1) as nat) + (if flags[k - 1] { pw2k((k - 1) as nat) } else { 0 }) }
}

/// Digit `j` (0 least significant) of `v` in base ten.
pub open spec fn dec_digit(v: int, j: nat) -> u8 {
    (48 + (v / tenpow(j)) % 10) as u8
}

/// The tracking code held in `v`: 18 digits, a base-5 digit, a digit.
pub open spec fn tracking_of(v: int) -> Seq<u8> {
    let v1 = v / tenpow(18);
    Seq::new(20, |i: int|
        if i == 0 { (48 + (v1 / 5) % 10) as u8 } else if i == 1 { (48 + v1 % 5) as u8 } else { dec_digit(v, (19 - i) as nat) })
}

/// The routing code held in routing value `rv`, where it fits its width.
pub open spec fn routing_of(rv: int) -> Option<Seq<u8>> {
    let (width, zip) = if rv == 0 {
        (0int, 0int)
    } else if rv <= 100_000 {
        (5, rv - 1)
    } else if rv <= 1_000_100_000 {
        (9, rv - 100_001)
    } else {
        (11, rv - 1_000_100_001)
    };
    if zip < tenpow(width as nat) {
        Some(Seq::new(width as nat, |i: int| dec_digit(zip, (width - 1 - i) as nat)))
    } else {
        None
    }
}

/// What decoding 65 bars gives: the tracking and routing codes.
pub open spec fn imb_decode_spec(bars: Seq<BarState>) -> Result<(Seq<u8>, Seq<u8>), Error> {
    let chars = gather(bars, 65);
    if bars.len() != 65 || exists|i: int| 0 <= i < 10 && (#[trigger] unchar(chars[i] as int)) is None {
        Err(Error::Undecodable)
    } else {
        let cw = Seq::new(10, |i: int| unchar(chars[i] as int).unwrap().0);
        let flags = Seq::new(10, |i: int| unchar(chars[i] as int).unwrap().1);
        let top = cw[0] >= 659;
        let c0 = if top { cw[0] - 659 } else { cw[0] };
        let fcs = neg_bits(flags, 10) + (if top { 1024int } else { 0int });
        let value = horner1365(c0, cw.subrange(1, 9)) * 636 + cw[9] / 2;
        if cw[9] % 2 == 1 || crc11_spec(bytes13(value)) as int != fcs {
            Err(Error::Undecodable)
        } else {
            match routing_of(value / tenpow(18) / 5 / 10) {
                Some(r) => Ok((tracking_of(value), r)),
                None => Err(Error::Undecodable),
            }
        }
    }
}

fn gather_chars(bars: &[BarState], map: &[u8; 260]) -> (chars: Vec<u16>)
    requires
        bars@.len() == 65,
        map@ == bar_map(),
    ensures
        chars@ == gather(bars@, 65),
        chars@.len() == 10,
        forall|i: int| 0 <= i < 10 ==> #[trigger] chars@[i] < 8192,
{
    let mut chars: Vec<u16> = Vec::new();
    let mut z: usize = 0;
    while z < 10
        invariant
            z <= 10,
            chars@ == Seq::new(z as nat, |_i: int| 0u16),
        decreases 10 - z,
    {
        chars.push(0);
        z = z + 1;
        proof {
            assert(chars@ =~= Seq::new(z as nat, |_i: int| 0u16));
        }
    }
    proof {
        lemma_bar_map_ranges();
    }
    let mut k: usize = 0;
    while k < 65
        invariant
            k <= 65,
            bars@.len() == 65,
            map@ == bar_map(),
            forall|j: int| 0 <= j < 65 ==> #[trigger] bar_map()[4 * j] < 10 && bar_map()[4 * j + 1] < 13
                && bar_map()[4 * j + 2] < 10 && bar_map()[4 * j + 3] < 13,
            chars@ == gather(bars@, k as nat),
            chars@.len() == 10,
            forall|i: int| 0 <= i < 10 ==> #[trigger] chars@[i] < 8192,
        decreases 65 - k,
    {
        let dc = map[4 * k] as usize;
        let db = map[4 * k + 1];
        let ac = map[4 * k + 2] as usize;
        let ab = map[4 * k + 3];
        proof {
            assert(bar_map()[4 * k as int] < 10 && bar_map()[4 * k + 1] < 13 && bar_map()[4 * k + 2] < 10
                && bar_map()[4 * k + 3] < 13);
        }
        if bars[k].has_descender() {
            let x = chars[dc];
            proof {
                lemma_or_bit(x, db);
            }
            chars.set(dc, x | (1u16 << db));
        }
        if bars[k].has_ascender() {
            let x = chars[ac];
            proof {
                lemma_or_bit(x, ab);
            }
            chars.set(ac, x | (1u16 << ab));
        }
        k = k + 1;
    }
    chars
}

/// Setting one of the low 13 bits keeps a value within 13 bits.
proof fn lemma_or_bit(x: u16, b: u8)
    requires
        x < 8192,
        b < 13,
    ensures
        x | (1u16 << b) < 8192,
{
    assert(x | (1u16 << b) < 8192) by (bit_vector)
        requires
            x < 8192,
            b < 13,
    ;
}

fn find_in(t: &Vec<u16>, c: u16) -> (r: Option<usize>)
    ensures
        r matches Some(i) ==> find(t@, c as int, 0) == Some(i as int),
        r is None ==> find(t@, c as int, 0) is None,
{
    let mut i: usize = 0;
    while i < t.len()
        invariant
            i <= t@.len(),
            find(t@, c as int, 0) == find(t@, c as int, i as nat),
        decreases t@.len() - i,
    {
        if t[i] == c {
            return Some(i);
        }
        i = i + 1;
    }
    None
}

/// The codeword of a character and whether it was complemented.
fn unchar_exec(c: u16, five: &Vec<u16>, two: &Vec<u16>) -> (r: Option<(u16, bool)>)
    requires
        c < 8192,
        five@ == nof13(5, 1287),
        two@ == nof13(2, 78),
    ensures
        match unchar(c as int) {
            Some((w, n)) => r matches Some((w2, n2)) && w2 as int == w && n2 == n,
            None => r is None,
        },
        r matches Some((w, _)) ==> w < 1365,
{
    proof {
        lemma_table_values(5, 1287);
        lemma_table_values(2, 78);
    }
    let p = popcount13(c);
    let (base, neg) = if p == 5 || p == 2 {
        (c, false)
    } else if p == 8 || p == 11 {
        proof {
            assert(c ^ 0x1FFFu16 == 8191 - c) by (bit_vector)
                requires
                    c < 8192,
            ;
        }
        (c ^ 0x1FFF, true)
    } else {
        return None;
    };
    let bp = popcount13(base);
    if bp == 5 {
        match find_in(five, base) {
            Some(i) => {
                proof {
                    lemma_find_range(five@, base as int, 0);
                }
                Some((i as u16, neg))
            },
            None => None,
        }
    } else if bp == 2 {
        match find_in(two, base) {
            Some(i) => {
                proof {
                    lemma_find_range(two@, base as int, 0);
                }
                Some(((i + 1287) as u16, neg))
            },
            None => None,
        }
    } else {
        None
    }
}

proof fn lemma_find_range(t: Seq<u16>, c: int, i: nat)
    ensures
        find(t, c, i) matches Some(j) ==> i <= j < t.len(),
    decreases t.len() - i,
{
    if i < t.len() && t[i as int] != c {
        lemma_find_range(t, c, i + 1);
    }
}

/// The ASCII digits of `v`, `j` places up from the least significant.
fn digits_from(v: u128, width: usize) -> (out: Vec<u8>)
    requires
        width <= 20,
    ensures
        out@ == Seq::new(width as nat, |i: int| dec_digit(v as int, (width - 1 - i) as nat)),
{
    let mut out: Vec<u8> = Vec::new();
    let mut z: usize = 0;
    while z < width
        invariant
            z <= width,
            out@.len() == z,
        decreases width - z,
    {
        out.push(48);
        z = z + 1;
    }
    let mut cur = v;
    let mut j: usize = 0;
    while j < width
        invariant
            j <= width,
            width <= 20,
            out@.len() == width,
            cur as int == (v as int) / tenpow(j as nat),
            forall|k: int| width - j <= k < width ==> #[trigger] out@[k] == dec_digit(v as int, (width - 1 - k) as nat),
        decreases width - j,
    {
        proof {
            lemma_tenpow_pos(j as nat);
            vstd::arithmetic::div_mod::lemma_div_denominator(v as int, tenpow(j as nat), 10);
            assert(tenpow((j + 1) as nat) == tenpow(j as nat) * 10);
        }
        out.set(width - 1 - j, 48 + (cur % 10) as u8);
        cur = cur / 10;
        j = j + 1;
    }
    proof {
        assert(out@ =~= Seq::new(width as nat, |i: int| dec_digit(v as int, (width - 1 - i) as nat)));
    }
    out
}

/// The tracking and routing codes held in `value`, where the routing code fits its
/// width.
fn from_binary(value: u128) -> (r: Option<(Vec<u8>, Vec<u8>)>)
    ensures
        match routing_of((value as int) / tenpow(18) / 5 / 10) {
            Some(rt) => r matches Some((t, r2)) && t@ == tracking_of(value as int) && r2@ == rt,
            None => r is None,
        },
{
    let low = digits_from(value, 20);
    proof {
        assert(tenpow(18) == 1_000_000_000_000_000_000) by {
            reveal_with_fuel(tenpow, 19);
        }
    }
    let v1 = value / 1_000_000_000_000_000_000;
    let mut tracking: Vec<u8> = Vec::new();
    tracking.push(48 + ((v1 / 5) % 10) as u8);
    tracking.push(48 + (v1 % 5) as u8);
    let mut k: usize = 2;
    while k < 20
        invariant
            2 <= k <= 20,
            low@ == Seq::new(20, |i: int| dec_digit(value as int, (19 - i) as nat)),
            tracking@.len() == k,
            forall|i: int| 0 <= i < k ==> #[trigger] tracking@[i] == tracking_of(value as int)[i],
            v1 as int == (value as int) / tenpow(18),
        decreases 20 - k,
    {
        tracking.push(low[k]);
        k = k + 1;
    }
    proof {
        assert(tracking@ =~= tracking_of(value as int));
    }
    let rv = v1 / 5 / 10;
    let (width, zip, limit): (usize, u128, u128) = if rv == 0 {
        (0, 0, 1)
    } else if rv <= 100_000 {
        (5, rv - 1, 100_000)
    } else if rv <= 1_000_100_000 {
        (9, rv - 100_001, 1_000_000_000)
    } else {
        (11, rv - 1_000_100_001, 100_000_000_000)
    };
    proof {
        assert(tenpow(0) == 1 && tenpow(5) == 100_000 && tenpow(9) == 1_000_000_000 && tenpow(11)
            == 100_000_000_000) by {
            reveal_with_fuel(tenpow, 12);
        }
    }
    if zip >= limit {
        return None;
    }
    let routing = digits_from(zip, width);
    Some((tracking, routing))
}

/// Decode 65 bars into the tracking and routing codes: characters from the bars,
/// codewords and CRC bits from the characters, the number from the codewords, the
/// CRC re-checked, then the fields.
pub fn decode(bars: &[BarState]) -> (r: Result<(Vec<u8>, Vec<u8>), Error>)
    ensures
        match imb_decode_spec(bars@) {
            Ok((t, rt)) => r is Ok && r->Ok_0.0@ == t && r->Ok_0.1@ == rt,
            Err(e) => r == Err::<(Vec<u8>, Vec<u8>), Error>(e),
        },
{
    if bars.len() != 65 {
        return Err(Error::Undecodable);
    }
    let map = bar_map_table();
    let chars = gather_chars(bars, &map);
    let five = init_nof13(5, 1287);
    let two = init_nof13(2, 78);
    let ghost g = gather(bars@, 65);
    let powers: [u16; 10] = [1, 2, 4, 8, 16, 32, 64, 128, 256, 512];
    proof {
        assert(pw2k(0) == 1 && pw2k(1) == 2 && pw2k(2) == 4 && pw2k(3) == 8 && pw2k(4) == 16 && pw2k(5)
            == 32 && pw2k(6) == 64 && pw2k(7) == 128 && pw2k(8) == 256 && pw2k(9) == 512) by {
            reveal_with_fuel(pw2k, 10);
        }
    }
    let mut cw: Vec<u16> = Vec::new();
    let mut flags: Vec<bool> = Vec::new();
    let mut fcs: u16 = 0;
    let mut i: usize = 0;
    while i < 10
        invariant
            i <= 10,
            bars@.len() == 65,
            g == gather(bars@, 65),
            chars@ == g,
            chars@.len() == 10,
            forall|j: int| 0 <= j < 10 ==> #[trigger] chars@[j] < 8192,
            five@ == nof13(5, 1287),
            two@ == nof13(2, 78),
            powers@ == seq![1u16, 2, 4, 8, 16, 32, 64, 128, 256, 512],
            pw2k(0) == 1 && pw2k(1) == 2 && pw2k(2) == 4 && pw2k(3) == 8 && pw2k(4) == 16 && pw2k(5)
                == 32 && pw2k(6) == 64 && pw2k(7) == 128 && pw2k(8) == 256 && pw2k(9) == 512,
            cw@.len() == i,
            flags@.len() == i,
            forall|j: int| 0 <= j < i ==> (#[trigger] unchar(g[j] as int)) is Some,
            forall|j: int| 0 <= j < i ==> #[trigger] cw@[j] as int == unchar(g[j] as int).unwrap().0,
            forall|j: int| 0 <= j < i ==> #[trigger] flags@[j] == unchar(g[j] as int).unwrap().1,
            forall|j: int| 0 <= j < i ==> #[trigger] cw@[j] < 1365,
            fcs as int == neg_bits(flags@, i as nat),
            fcs < pw2k(i as nat),
        decreases 10 - i,
    {
        match unchar_exec(chars[i], &five, &two) {
            Some((w, n)) => {
                let ghost before = flags@;
                cw.push(w);
                flags.push(n);
                proof {
                    assert(powers@[i as int] as int == pw2k(i as nat));
                    assert(neg_bits(flags@, i as nat) == neg_bits(before, i as nat)) by {
                        lemma_neg_bits_prefix(before, flags@, i as nat);
                    }
                    assert(pw2k((i + 1) as nat) == 2 * pw2k(i as nat));
                }
                if n {
                    fcs = fcs + powers[i];
                }
            },
            None => {
                proof {
                    assert(!((unchar(g[i as int] as int)) is Some));
                }
                return Err(Error::Undecodable);
            },
        }
        i = i + 1;
    }
    let ghost cws = Seq::new(10, |j: int| unchar(g[j] as int).unwrap().0);
    let ghost fl = Seq::new(10, |j: int| unchar(g[j] as int).unwrap().1);
    proof {
        assert(flags@ =~= fl);
    }
    if cw[9] % 2 == 1 {
        return Err(Error::Undecodable);
    }
    let cw_j = cw[9] / 2;
    let top = cw[0] >= 659;
    let c0 = if top { cw[0] - 659 } else { cw[0] };
    let full_fcs: u16 = if top { fcs + 1024 } else { fcs };
    let mut value: u128 = c0 as u128;
    let mut k: usize = 1;
    proof {
        assert(p1365(1) == 1365) by {
            reveal_with_fuel(p1365, 2);
        }
        assert(p1365(9) == 16_451_059_093_661_377_526_783_203_125) by {
            reveal_with_fuel(p1365, 10);
        }
        assert(cws.subrange(1, 1) =~= Seq::<int>::empty());
    }
    while k < 9
        invariant
            1 <= k <= 9,
            cws.len() == 10,
            cw@.len() == 10,
            forall|j: int| 0 <= j < 10 ==> #[trigger] cw@[j] as int == cws[j],
            forall|j: int| 0 <= j < 10 ==> #[trigger] cw@[j] < 1365,
            value as int == horner1365(c0 as int, cws.subrange(1, k as int)),
            value < p1365(k as nat),
            p1365(9) == 16_451_059_093_661_377_526_783_203_125,
        decreases 9 - k,
    {
        proof {
            assert(cws.subrange(1, k + 1).drop_last() =~= cws.subrange(1, k as int));
            lemma_p1365_mono(k as nat + 1, 9);
            assert(p1365((k + 1) as nat) == p1365(k as nat) * 1365);
            assert(value * 1365 + 1364 < p1365((k + 1) as nat)) by (nonlinear_arith)
                requires
                    value < p1365(k as nat),
                    p1365((k + 1) as nat) == p1365(k as nat) * 1365,
            ;
        }
        value = value * 1365 + cw[k] as u128;
        k = k + 1;
    }
    value = value * 636 + cw_j as u128;
    let bytes = binary_bytes(value);
    let check = crc11_for(&bytes);
    if check != full_fcs {
        return Err(Error::Undecodable);
    }
    match from_binary(value) {
        Some((t, rt)) => Ok((t, rt)),
        None => Err(Error::Undecodable),
    }
}

proof fn lemma_neg_bits_prefix(a: Seq<bool>, b: Seq<bool>, k: nat)
    requires
        k <= a.len(),
        k <= b.len(),
        forall|j: int| 0 <= j < k ==> a[j] == b[j],
    ensures
        neg_bits(a, k) == neg_bits(b, k),
    decreases k,
{
    if k > 0 {
        lemma_neg_bits_prefix(a, b, (k - 1) as nat);
    }
}

proof fn lemma_p1365_mono(a: nat, b: nat)
    requires
        a <= b,
    ensures
        p1365(a) <= p1365(b),
    decreases b - a,
{
    if a < b {
        lemma_p1365_mono(a, (b - 1) as nat);
        lemma_p1365_pos((b - 1) as nat);
    }
}
} // verus!
