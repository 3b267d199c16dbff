//! Element patterns, parity tables, guards, and the numeric helpers (check digits,
//! UPC-E expansion) shared by the EAN/UPC encoder and decoder.
use vstd::prelude::*;

verus! {

/// The seven-module L-code (odd parity) patterns for digits 0..=9, most significant
/// module first (`1` = bar). `R` is the bitwise complement; `G` is `R` reversed.
pub open spec fn l_patterns() -> Seq<u8> {
    seq![0x0du8, 0x19, 0x13, 0x3d, 0x23, 0x31, 0x2f, 0x3b, 0x37, 0x0b]
}

/// The seven modules of a 7-bit pattern, most significant first.
pub open spec fn bits7_spec(p: u8) -> Seq<bool> {
    Seq::new(7, |i: int| (p >> ((6 - i) as u8)) & 1u8 == 1u8)
}

/// L-code modules of digit `d`.
pub open spec fn l_code_spec(d: int) -> Seq<bool> {
    bits7_spec(l_patterns()[d])
}

/// R-code modules of digit `d`: the complement of the L-code.
pub open spec fn r_code_spec(d: int) -> Seq<bool> {
    bits7_spec(!l_patterns()[d] & 0x7fu8)
}

/// G-code modules of digit `d`: the R-code reversed.
pub open spec fn g_code_spec(d: int) -> Seq<bool> {
    r_code_spec(d).reverse()
}

/// Left-hand modules of digit `d`: G when `even`, else L.
pub open spec fn left_code_spec(d: int, even: bool) -> Seq<bool> {
    if even { g_code_spec(d) } else { l_code_spec(d) }
}

/// Expand a 7-bit pattern (most significant first) into modules, `true` = bar.
fn bits7(pattern: u8) -> (out: [bool; 7])
    ensures
        out@ == bits7_spec(pattern),
{
    let mut out = [false; 7];
    let mut i: usize = 0;
    while i < 7
        invariant
            i <= 7,
            out@.len() == 7,
            forall|j: int| 0 <= j < i ==> out@[j] == bits7_spec(pattern)[j],
        decreases 7 - i,
    {
        out[i] = (pattern >> ((6 - i) as u8)) & 1 == 1;
        i = i + 1;
    }
    proof {
        assert(out@ =~= bits7_spec(pattern));
    }
    out
}

/// The L-code pattern byte of digit `d`.
fn l_pattern(d: u8) -> (p: u8)
    requires
        d < 10,
    ensures
        p == l_patterns()[d as int],
{
    let t: [u8; 10] = [0x0d, 0x19, 0x13, 0x3d, 0x23, 0x31, 0x2f, 0x3b, 0x37, 0x0b];
    proof {
        assert(t@ =~= l_patterns());
    }
    t[d as usize]
}

/// L-code (left-hand odd parity) modules for a digit value 0..=9.
pub fn l_code(d: u8) -> (c: [bool; 7])
    requires
        d < 10,
    ensures
        c@ == l_code_spec(d as int),
{
    bits7(l_pattern(d))
}

/// R-code (right-hand) modules: the bitwise complement of the L-code.
pub fn r_code(d: u8) -> (c: [bool; 7])
    requires
        d < 10,
    ensures
        c@ == r_code_spec(d as int),
{
    bits7((!l_pattern(d)) & 0x7f)
}

/// G-code (left-hand even parity) modules: the R-code read in reverse.
pub fn g_code(d: u8) -> (c: [bool; 7])
    requires
        d < 10,
    ensures
        c@ == g_code_spec(d as int),
{
    let r = r_code(d);
    let mut g = [false; 7];
    let mut i: usize = 0;
    while i < 7
        invariant
            i <= 7,
            g@.len() == 7,
            r@ == r_code_spec(d as int),
            forall|j: int| 0 <= j < i ==> g@[j] == r@[6 - j],
        decreases 7 - i,
    {
        g[i] = r[6 - i];
        i = i + 1;
    }
    proof {
        assert(g@ =~= r@.reverse());
    }
    g
}

/// Left-hand element modules for a digit, choosing G (even) when `even` else L (odd).
pub fn left_code(d: u8, even: bool) -> (c: [bool; 7])
    requires
        d < 10,
    ensures
        c@ == left_code_spec(d as int, even),
{
    if even { g_code(d) } else { l_code(d) }
}

/// L and R are complements and G is R reversed, for every digit.
pub proof fn lemma_element_relations(d: int)
    requires
        0 <= d < 10,
    ensures
        forall|i: int| 0 <= i < 7 ==> #[trigger] l_code_spec(d)[i] == !r_code_spec(d)[i],
        forall|i: int| 0 <= i < 7 ==> #[trigger] g_code_spec(d)[i] == r_code_spec(d)[6 - i],
{
    assert forall|i: int| 0 <= i < 7 implies #[trigger] l_code_spec(d)[i] == !r_code_spec(d)[i] by {
        let p = l_patterns()[d];
        let k = (6 - i) as u8;
        assert(k < 7);
        lemma_seven_bits(p, k);
    }
}

/// The number seven modules spell, first module most significant.
pub open spec fn code7(s: Seq<bool>) -> int {
    (if s[0] { 64int } else { 0int }) + (if s[1] { 32int } else { 0int }) + (if s[2] { 16int } else { 0int })
        + (if s[3] { 8int } else { 0int }) + (if s[4] { 4int } else { 0int }) + (if s[5] { 2int } else { 0int })
        + (if s[6] { 1int } else { 0int })
}

/// The L-code pattern of digit `d` as a number.
pub open spec fn l_value(d: int) -> int {
    if d == 0 { 13 } else if d == 1 { 25 } else if d == 2 { 19 } else if d == 3 { 61 } else if d == 4 { 35 }
    else if d == 5 { 49 } else if d == 6 { 47 } else if d == 7 { 59 } else if d == 8 { 55 } else { 11 }
}

/// The G-code pattern of digit `d` as a number.
pub open spec fn g_value(d: int) -> int {
    if d == 0 { 39 } else if d == 1 { 51 } else if d == 2 { 27 } else if d == 3 { 33 } else if d == 4 { 29 }
    else if d == 5 { 57 } else if d == 6 { 5 } else if d == 7 { 17 } else if d == 8 { 9 } else { 23 }
}

/// A 7-bit number with its bits in reverse order.
pub open spec fn rev7(q: u8) -> u8 {
    (((q >> 0u8) & 1u8) << 6u8) | (((q >> 1u8) & 1u8) << 5u8) | (((q >> 2u8) & 1u8) << 4u8) | (((q >> 3u8) & 1u8)
        << 3u8) | (((q >> 4u8) & 1u8) << 2u8) | (((q >> 5u8) & 1u8) << 1u8) | ((q >> 6u8) & 1u8)
}

/// Bit facts on a seven-bit number: the complement of a bit is the bit of the
/// complement, the bits weigh 64 down to 1 in either order, and the reversals of the
/// L patterns' complements are the G patterns.
proof fn lemma_seven_bits(p: u8, k: u8)
    by (bit_vector)
    requires
        p < 128,
        k < 7,
    ensures
        ((p >> k) & 1u8 == 1u8) == !(((!p & 0x7fu8) >> k) & 1u8 == 1u8),
        p == (if (p >> 6u8) & 1u8 == 1u8 { 64u8 } else { 0u8 }) + (if (p >> 5u8) & 1u8 == 1u8 { 32u8 } else { 0u8 })
            + (if (p >> 4u8) & 1u8 == 1u8 { 16u8 } else { 0u8 }) + (if (p >> 3u8) & 1u8 == 1u8 { 8u8 } else { 0u8 })
            + (if (p >> 2u8) & 1u8 == 1u8 { 4u8 } else { 0u8 }) + (if (p >> 1u8) & 1u8 == 1u8 { 2u8 } else { 0u8 })
            + (if (p >> 0u8) & 1u8 == 1u8 { 1u8 } else { 0u8 }),
        rev7(p) == (if (p >> 0u8) & 1u8 == 1u8 { 64u8 } else { 0u8 }) + (if (p >> 1u8) & 1u8 == 1u8 { 32u8 } else {
            0u8 }) + (if (p >> 2u8) & 1u8 == 1u8 { 16u8 } else { 0u8 }) + (if (p >> 3u8) & 1u8 == 1u8 { 8u8 } else {
            0u8 }) + (if (p >> 4u8) & 1u8 == 1u8 { 4u8 } else { 0u8 }) + (if (p >> 5u8) & 1u8 == 1u8 { 2u8 } else {
            0u8 }) + (if (p >> 6u8) & 1u8 == 1u8 { 1u8 } else { 0u8 }),
        !p & 0x7fu8 == 127 - p,
        !p & 0x7fu8 < 128,
        rev7(114u8) == 39 && rev7(102u8) == 51 && rev7(108u8) == 27 && rev7(66u8) == 33 && rev7(92u8) == 29
            && rev7(78u8) == 57 && rev7(80u8) == 5 && rev7(68u8) == 17 && rev7(72u8) == 9 && rev7(116u8) == 23,
{
}

/// Seven modules read back give the pattern they were drawn from.
proof fn lemma_code7_bits(p: u8)
    requires
        p < 128,
    ensures
        code7(bits7_spec(p)) == p,
        code7(bits7_spec(p).reverse()) == rev7(p),
{
    let s = bits7_spec(p);
    let b0 = (p >> 6u8) & 1u8 == 1u8;
    let b1 = (p >> 5u8) & 1u8 == 1u8;
    let b2 = (p >> 4u8) & 1u8 == 1u8;
    let b3 = (p >> 3u8) & 1u8 == 1u8;
    let b4 = (p >> 2u8) & 1u8 == 1u8;
    let b5 = (p >> 1u8) & 1u8 == 1u8;
    let b6 = (p >> 0u8) & 1u8 == 1u8;
    assert(s[0] == b0 && s[1] == b1 && s[2] == b2 && s[3] == b3 && s[4] == b4 && s[5] == b5 && s[6] == b6);
    let r = s.reverse();
    assert(r[0] == b6 && r[1] == b5 && r[2] == b4 && r[3] == b3 && r[4] == b2 && r[5] == b1 && r[6] == b0);
    lemma_seven_bits(p, 0);
}

/// The numbers the L, R and G codes of digit `d` spell.
proof fn lemma_code_values(d: int)
    requires
        0 <= d < 10,
    ensures
        code7(l_code_spec(d)) == l_value(d),
        code7(r_code_spec(d)) == 127 - l_value(d),
        code7(g_code_spec(d)) == g_value(d),
{
    let p = l_patterns()[d];
    assert(p == l_value(d)) by {
        if d == 0 {} else if d == 1 {} else if d == 2 {} else if d == 3 {} else if d == 4 {}
        else if d == 5 {} else if d == 6 {} else if d == 7 {} else if d == 8 {} else {}
    }
    assert(p < 128);
    let q = !p & 0x7fu8;
    lemma_seven_bits(p, 0);
    lemma_code7_bits(p);
    lemma_code7_bits(q);
}

/// The twenty left-hand codes (L and G of every digit) are pairwise distinct.
pub proof fn lemma_left_codes_distinct()
    ensures
        forall|d1: int, e1: bool, d2: int, e2: bool|
            0 <= d1 < 10 && 0 <= d2 < 10 && #[trigger] left_code_spec(d1, e1) == #[trigger] left_code_spec(d2, e2)
                ==> d1 == d2 && e1 == e2,
{
    assert forall|d1: int, e1: bool, d2: int, e2: bool|
        0 <= d1 < 10 && 0 <= d2 < 10 && #[trigger] left_code_spec(d1, e1) == #[trigger] left_code_spec(d2, e2)
        implies d1 == d2 && e1 == e2 by {
        lemma_code_values(d1);
        lemma_code_values(d2);
    }
}

/// The ten R codes are pairwise distinct, and none is an L code (an L code has an
/// odd number of bars, an R code an even number).
pub proof fn lemma_right_codes_distinct()
    ensures
        forall|d1: int, d2: int|
            0 <= d1 < 10 && 0 <= d2 < 10 && #[trigger] r_code_spec(d1) == #[trigger] r_code_spec(d2) ==> d1 == d2,
        forall|d1: int, d2: int|
            0 <= d1 < 10 && 0 <= d2 < 10 ==> #[trigger] l_code_spec(d1) != #[trigger] r_code_spec(d2),
{
    assert forall|d1: int, d2: int|
        0 <= d1 < 10 && 0 <= d2 < 10 && #[trigger] r_code_spec(d1) == #[trigger] r_code_spec(d2) implies d1 == d2 by {
        lemma_code_values(d1);
        lemma_code_values(d2);
    }
    assert forall|d1: int, d2: int|
        0 <= d1 < 10 && 0 <= d2 < 10 implies #[trigger] l_code_spec(d1) != #[trigger] r_code_spec(d2) by {
        lemma_code_values(d1);
        lemma_code_values(d2);
    }
}

/// Are the first seven modules of `m` exactly `code`?
fn eq7(m: &[bool], code: &[bool; 7]) -> (r: bool)
    ensures
        r == (m@ == code@),
{
    if m.len() != 7 {
        return false;
    }
    let mut i: usize = 0;
    while i < 7
        invariant
            i <= 7,
            m@.len() == 7,
            forall|j: int| 0 <= j < i ==> m@[j] == code@[j],
        decreases 7 - i,
    {
        if m[i] != code[i] {
            return false;
        }
        i = i + 1;
    }
    proof {
        assert(m@ =~= code@);
    }
    true
}

/// Match a 7-module slice against the L and G tables, returning `(digit, is_even)`.
pub fn match_left(m: &[bool]) -> (r: Option<(u8, bool)>)
    ensures
        r matches Some((d, even)) ==> d < 10 && m@ == left_code_spec(d as int, even)
            && (even ==> m@ != l_code_spec(d as int))
            && forall|d2: int| 0 <= d2 < d ==> m@ != l_code_spec(d2) && m@ != g_code_spec(d2),
        r is None ==> forall|d2: int| 0 <= d2 < 10 ==> m@ != l_code_spec(d2) && m@ != g_code_spec(d2),
        forall|d: int, e: bool| 0 <= d < 10 && m@ == #[trigger] left_code_spec(d, e) ==> r == Some((d as u8, e)),
{
    proof {
        lemma_left_codes_distinct();
    }
    let mut d: u8 = 0;
    while d < 10
        invariant
            d <= 10,
            forall|d2: int| 0 <= d2 < d ==> m@ != l_code_spec(d2) && m@ != g_code_spec(d2),
        decreases 10 - d,
    {
        if eq7(m, &l_code(d)) {
            assert(m@ == left_code_spec(d as int, false));
            proof {
                lemma_left_codes_distinct();
            }
            return Some((d, false));
        }
        if eq7(m, &g_code(d)) {
            assert(m@ == left_code_spec(d as int, true));
            proof {
                lemma_left_codes_distinct();
            }
            return Some((d, true));
        }
        d = d + 1;
    }
    None
}

/// Match a 7-module slice against the R table, returning the digit value.
pub fn match_right(m: &[bool]) -> (r: Option<u8>)
    ensures
        r matches Some(d) ==> d < 10 && m@ == r_code_spec(d as int)
            && forall|d2: int| 0 <= d2 < d ==> m@ != r_code_spec(d2),
        r is None ==> forall|d2: int| 0 <= d2 < 10 ==> m@ != r_code_spec(d2),
        forall|d: int| 0 <= d < 10 && m@ == #[trigger] r_code_spec(d) ==> r == Some(d as u8),
        forall|d: int| 0 <= d < 10 && m@ == #[trigger] l_code_spec(d) ==> r is None,
{
    proof {
        lemma_right_codes_distinct();
    }
    let mut d: u8 = 0;
    while d < 10
        invariant
            d <= 10,
            forall|d2: int| 0 <= d2 < d ==> m@ != r_code_spec(d2),
        decreases 10 - d,
    {
        if eq7(m, &r_code(d)) {
            assert(m@ == r_code_spec(d as int));
            proof {
                lemma_right_codes_distinct();
            }
            return Some(d);
        }
        d = d + 1;
    }
    None
}

// ---- Parity tables ---------------------------------------------------------

/// EAN-13 first-digit parity: the odd/even (L/G) pattern of the six left-hand
/// digits for each leading digit. `true` = even (G).
pub open spec fn ean13_first_parity_spec(d: int) -> Seq<bool> {
    if d == 0 { seq![false, false, false, false, false, false] }
    else if d == 1 { seq![false, false, true, false, true, true] }
    else if d == 2 { seq![false, false, true, true, false, true] }
    else if d == 3 { seq![false, false, true, true, true, false] }
    else if d == 4 { seq![false, true, false, false, true, true] }
    else if d == 5 { seq![false, true, true, false, false, true] }
    else if d == 6 { seq![false, true, true, true, false, false] }
    else if d == 7 { seq![false, true, false, true, false, true] }
    else if d == 8 { seq![false, true, false, true, true, false] }
    else { seq![false, true, true, false, true, false] }
}

/// The EAN-13 parity row for leading digit `d`.
pub fn ean13_first_parity(d: u8) -> (p: [bool; 6])
    requires
        d < 10,
    ensures
        p@ == ean13_first_parity_spec(d as int),
{
    let p: [bool; 6] = match d {
        0 => [false, false, false, false, false, false],
        1 => [false, false, true, false, true, true],
        2 => [false, false, true, true, false, true],
        3 => [false, false, true, true, true, false],
        4 => [false, true, false, false, true, true],
        5 => [false, true, true, false, false, true],
        6 => [false, true, true, true, false, false],
        7 => [false, true, false, true, false, true],
        8 => [false, true, false, true, true, false],
        _ => [false, true, true, false, true, false],
    };
    proof {
        assert(p@ =~= ean13_first_parity_spec(d as int));
    }
    p
}

/// UPC-E parity for number system 0, indexed by check digit; `true` = even (G).
pub open spec fn upce_ns0_spec(c: int) -> Seq<bool> {
    if c == 0 { seq![true, true, true, false, false, false] }
    else if c == 1 { seq![true, true, false, true, false, false] }
    else if c == 2 { seq![true, true, false, false, true, false] }
    else if c == 3 { seq![true, true, false, false, false, true] }
    else if c == 4 { seq![true, false, true, true, false, false] }
    else if c == 5 { seq![true, false, false, true, true, false] }
    else if c == 6 { seq![true, false, false, false, true, true] }
    else if c == 7 { seq![true, false, true, false, true, false] }
    else if c == 8 { seq![true, false, true, false, false, true] }
    else { seq![true, false, false, true, false, true] }
}

/// UPC-E parity for a number system (1 inverts each row of number system 0).
pub open spec fn upce_parity_spec(ns: int, check: int) -> Seq<bool> {
    if ns == 1 {
        upce_ns0_spec(check).map_values(|b: bool| !b)
    } else {
        upce_ns0_spec(check)
    }
}

/// The number-system-0 UPC-E parity row for `check`.
fn upce_ns0(check: u8) -> (p: [bool; 6])
    requires
        check < 10,
    ensures
        p@ == upce_ns0_spec(check as int),
{
    let p: [bool; 6] = match check {
        0 => [true, true, true, false, false, false],
        1 => [true, true, false, true, false, false],
        2 => [true, true, false, false, true, false],
        3 => [true, true, false, false, false, true],
        4 => [true, false, true, true, false, false],
        5 => [true, false, false, true, true, false],
        6 => [true, false, false, false, true, true],
        7 => [true, false, true, false, true, false],
        8 => [true, false, true, false, false, true],
        _ => [true, false, false, true, false, true],
    };
    proof {
        assert(p@ =~= upce_ns0_spec(check as int));
    }
    p
}

/// The UPC-E parity pattern for a number system (0 or 1) and check digit.
pub fn upce_parity(ns: u8, check: u8) -> (p: [bool; 6])
    requires
        check < 10,
    ensures
        p@ == upce_parity_spec(ns as int, check as int),
{
    let base = upce_ns0(check);
    if ns == 1 {
        let mut inv = [false; 6];
        let mut i: usize = 0;
        while i < 6
            invariant
                i <= 6,
                inv@.len() == 6,
                base@ == upce_ns0_spec(check as int),
                forall|j: int| 0 <= j < i ==> inv@[j] == !base@[j],
            decreases 6 - i,
        {
            inv[i] = !base[i];
            i = i + 1;
        }
        proof {
            assert(inv@ =~= upce_parity_spec(ns as int, check as int));
        }
        inv
    } else {
        base
    }
}

/// The number six parities spell, first most significant (`true` = 1).
pub open spec fn code6(s: Seq<bool>) -> int {
    (if s[0] { 32int } else { 0int }) + (if s[1] { 16int } else { 0int }) + (if s[2] { 8int } else { 0int }) + (if s[3] {
        4int
    } else { 0int }) + (if s[4] { 2int } else { 0int }) + (if s[5] { 1int } else { 0int })
}

/// The number-system-0 UPC-E parity row of check digit `c` as a number.
pub open spec fn upce_value(c: int) -> int {
    if c == 0 { 56 } else if c == 1 { 52 } else if c == 2 { 50 } else if c == 3 { 49 } else if c == 4 { 44 }
    else if c == 5 { 38 } else if c == 6 { 35 } else if c == 7 { 42 } else if c == 8 { 41 } else { 37 }
}

proof fn lemma_upce_value(ns: int, c: int)
    requires
        0 <= ns < 2,
        0 <= c < 10,
    ensures
        upce_parity_spec(ns, c).len() == 6,
        code6(upce_parity_spec(ns, c)) == (if ns == 1 { 63 - upce_value(c) } else { upce_value(c) }),
{
    let r = upce_ns0_spec(c);
    assert(r.len() == 6 && code6(r) == upce_value(c)) by {
        if c == 0 {} else if c == 1 {} else if c == 2 {} else if c == 3 {} else if c == 4 {}
        else if c == 5 {} else if c == 6 {} else if c == 7 {} else if c == 8 {} else {}
    }
    if ns == 1 {
        let q = r.map_values(|b: bool| !b);
        assert(q[0] == !r[0] && q[1] == !r[1] && q[2] == !r[2] && q[3] == !r[3] && q[4] == !r[4] && q[5] == !r[5]);
    }
}

/// The twenty UPC-E parity rows (number system 0 or 1, check digit 0–9) are
/// pairwise distinct.
pub proof fn lemma_upce_rows_distinct()
    ensures
        forall|n1: int, c1: int, n2: int, c2: int|
            0 <= n1 < 2 && 0 <= c1 < 10 && 0 <= n2 < 2 && 0 <= c2 < 10 && #[trigger] upce_parity_spec(n1, c1)
                == #[trigger] upce_parity_spec(n2, c2) ==> n1 == n2 && c1 == c2,
{
    assert forall|n1: int, c1: int, n2: int, c2: int|
        0 <= n1 < 2 && 0 <= c1 < 10 && 0 <= n2 < 2 && 0 <= c2 < 10 && #[trigger] upce_parity_spec(n1, c1)
            == #[trigger] upce_parity_spec(n2, c2) implies n1 == n2 && c1 == c2 by {
        lemma_upce_value(n1, c1);
        lemma_upce_value(n2, c2);
    }
}

/// Are two parity rows equal?
fn eq6(a: &[bool; 6], b: &[bool; 6]) -> (r: bool)
    ensures
        r == (a@ == b@),
{
    let mut i: usize = 0;
    while i < 6
        invariant
            i <= 6,
            forall|j: int| 0 <= j < i ==> a@[j] == b@[j],
        decreases 6 - i,
    {
        if a[i] != b[i] {
            return false;
        }
        i = i + 1;
    }
    proof {
        assert(a@ =~= b@);
    }
    true
}

/// Reverse the UPC-E parity lookup: given the six observed parities (`true` = even),
/// recover `(number_system, check_digit)`, or `None` if no combination matches.
pub fn upce_from_parity(parity: &[bool; 6]) -> (r: Option<(u8, u8)>)
    ensures
        r matches Some((ns, c)) ==> ns < 2 && c < 10 && upce_parity_spec(ns as int, c as int) == parity@,
        r is None ==> forall|ns: int, c: int| 0 <= ns < 2 && 0 <= c < 10 ==> upce_parity_spec(ns, c) != parity@,
        forall|ns: int, c: int| 0 <= ns < 2 && 0 <= c < 10 && #[trigger] upce_parity_spec(ns, c) == parity@ ==> r == Some(
            (ns as u8, c as u8),
        ),
{
    let mut ns: u8 = 0;
    while ns < 2
        invariant
            ns <= 2,
            forall|n2: int, c: int| 0 <= n2 < ns && 0 <= c < 10 ==> upce_parity_spec(n2, c) != parity@,
        decreases 2 - ns,
    {
        let mut check: u8 = 0;
        while check < 10
            invariant
                ns < 2,
                check <= 10,
                forall|n2: int, c: int| 0 <= n2 < ns && 0 <= c < 10 ==> upce_parity_spec(n2, c) != parity@,
                forall|c: int| 0 <= c < check ==> upce_parity_spec(ns as int, c) != parity@,
            decreases 10 - check,
        {
            if eq6(&upce_parity(ns, check), parity) {
                proof {
                    lemma_upce_rows_distinct();
                }
                return Some((ns, check));
            }
            check = check + 1;
        }
        ns = ns + 1;
    }
    None
}

/// EAN-5 add-on parity, indexed by the add-on checksum; `true` = even (G).
pub open spec fn ean5_parity_spec(c: int) -> Seq<bool> {
    if c == 0 { seq![true, true, false, false, false] }
    else if c == 1 { seq![true, false, true, false, false] }
    else if c == 2 { seq![true, false, false, true, false] }
    else if c == 3 { seq![true, false, false, false, true] }
    else if c == 4 { seq![false, true, true, false, false] }
    else if c == 5 { seq![false, false, true, true, false] }
    else if c == 6 { seq![false, false, false, true, true] }
    else if c == 7 { seq![false, true, false, true, false] }
    else if c == 8 { seq![false, true, false, false, true] }
    else { seq![false, false, true, false, true] }
}

/// The EAN-5 parity row for checksum `c`.
pub fn ean5_parity(c: u8) -> (p: [bool; 5])
    requires
        c < 10,
    ensures
        p@ == ean5_parity_spec(c as int),
{
    let p: [bool; 5] = match c {
        0 => [true, true, false, false, false],
        1 => [true, false, true, false, false],
        2 => [true, false, false, true, false],
        3 => [true, false, false, false, true],
        4 => [false, true, true, false, false],
        5 => [false, false, true, true, false],
        6 => [false, false, false, true, true],
        7 => [false, true, false, true, false],
        8 => [false, true, false, false, true],
        _ => [false, false, true, false, true],
    };
    proof {
        assert(p@ =~= ean5_parity_spec(c as int));
    }
    p
}

/// EAN-2 add-on parity, indexed by `value % 4`; `true` = even (G).
pub open spec fn ean2_parity_spec(r: int) -> Seq<bool> {
    seq![r >= 2, r % 2 == 1]
}

/// The EAN-2 parity row for `value % 4 == r`.
pub fn ean2_parity(r: u8) -> (p: [bool; 2])
    requires
        r < 4,
    ensures
        p@ == ean2_parity_spec(r as int),
{
    let p: [bool; 2] = [r >= 2, r % 2 == 1];
    proof {
        assert(p@ =~= ean2_parity_spec(r as int));
    }
    p
}

// ---- Numeric helpers -------------------------------------------------------

/// Every value is a decimal digit value.
pub open spec fn digit_vals(s: Seq<u8>) -> bool {
    forall|i: int| 0 <= i < s.len() ==> #[trigger] s[i] <= 9
}

/// Weighted sum of the last `i` values of `s`: weight 3 on the rightmost, then 1,
/// alternating leftward.
pub open spec fn ean_sum(s: Seq<u8>, i: nat) -> int
    decreases i,
{
    if i == 0 {
        0
    } else {
        ean_sum(s, (i - 1) as nat) + (if (i - 1) % 2 == 0 { 3int } else { 1int }) * s[s.len() - i]
    }
}

/// The EAN/UPC mod-10 check digit of the data values `s`.
pub open spec fn check_digit_spec(s: Seq<u8>) -> int {
    (10 - ean_sum(s, s.len()) % 10) % 10
}

/// The EAN/UPC mod-10 check digit for the given data digit *values* (0..=9, excluding
/// the check position), as a value 0..=9. The rightmost data digit is weighted 3, the
/// next 1, alternating leftward.
pub fn check_digit(data: &[u8]) -> (c: u8)
    requires
        digit_vals(data@),
        data@.len() <= 0x00ff_ffff,
    ensures
        c == check_digit_spec(data@),
        c < 10,
{
    let n = data.len();
    let mut sum: u32 = 0;
    let mut i: usize = 0;
    while i < n
        invariant
            i <= n,
            n == data@.len(),
            n <= 0x00ff_ffff,
            digit_vals(data@),
            sum == ean_sum(data@, i as nat),
            sum <= 27 * i,
        decreases n - i,
    {
        let d = data[n - 1 - i] as u32;
        assert(d <= 9);
        let w: u32 = if i % 2 == 0 { 3 } else { 1 };
        assert(w * d <= 27) by (nonlinear_arith)
            requires
                w <= 3,
                d <= 9,
        ;
        sum = sum + w * d;
        i = i + 1;
    }
    ((10 - (sum % 10)) % 10) as u8
}

/// Weighted sum of the first `i` values: weights 3, 9, 3, 9, … from the left.
pub open spec fn ean5_sum(s: Seq<u8>, i: nat) -> int
    decreases i,
{
    if i == 0 {
        0
    } else {
        ean5_sum(s, (i - 1) as nat) + (if (i - 1) % 2 == 0 { 3int } else { 9int }) * s[i - 1]
    }
}

/// The EAN-5 add-on checksum digit (0..=9) from digit *values*: weighted 3, 9, 3, 9, 3.
pub fn ean5_checksum(digits: &[u8]) -> (c: u8)
    requires
        digit_vals(digits@),
        digits@.len() <= 0x00ff_ffff,
    ensures
        c == ean5_sum(digits@, digits@.len()) % 10,
        c < 10,
{
    let n = digits.len();
    let mut sum: u32 = 0;
    let mut i: usize = 0;
    while i < n
        invariant
            i <= n,
            n == digits@.len(),
            n <= 0x00ff_ffff,
            digit_vals(digits@),
            sum == ean5_sum(digits@, i as nat),
            sum <= 81 * i,
        decreases n - i,
    {
        let d = digits[i] as u32;
        assert(d <= 9);
        let w: u32 = if i % 2 == 0 { 3 } else { 9 };
        assert(w * d <= 81) by (nonlinear_arith)
            requires
                w <= 9,
                d <= 9,
        ;
        sum = sum + w * d;
        i = i + 1;
    }
    (sum % 10) as u8
}

/// The UPC-A data digits (number system + ten) a UPC-E payload expands to.
pub open spec fn upce_expand_spec(ns: u8, d: Seq<u8>) -> Seq<u8> {
    if d[5] <= 2 {
        seq![ns, d[0], d[1], d[5], 0, 0, 0, 0, d[2], d[3], d[4]]
    } else if d[5] == 3 {
        seq![ns, d[0], d[1], d[2], 0, 0, 0, 0, 0, d[3], d[4]]
    } else if d[5] == 4 {
        seq![ns, d[0], d[1], d[2], d[3], 0, 0, 0, 0, 0, d[4]]
    } else {
        seq![ns, d[0], d[1], d[2], d[3], d[4], 0, 0, 0, 0, d[5]]
    }
}

/// A UPC-E payload in the form the zero-suppression rules produce: a payload ending
/// in 3 has a third digit of 3 or more, one ending in 4 a nonzero fourth digit, and
/// one ending in 5–9 a nonzero fifth digit (the other forms belong to earlier rules).
pub open spec fn upce_canonical(d: Seq<u8>) -> bool {
    &&& d.len() == 6
    &&& forall|i: int| 0 <= i < 6 ==> #[trigger] d[i] <= 9
    &&& d[5] == 3 ==> d[2] >= 3
    &&& d[5] == 4 ==> d[3] >= 1
    &&& d[5] >= 5 ==> d[4] >= 1
}

/// Zero suppression read from the UPC-A side: number system `a[0]`, manufacturer
/// code `a[1..6]`, item code `a[6..11]`. A manufacturer code ending in `X00` with
/// `X` ≤ 2 and an item code `00ddd` keep `X` last; one ending in `00` with item code
/// `000dd` is marked 3; one ending in `0` with item code `0000d` is marked 4; an item
/// code `0000d` with `d` ≥ 5 keeps `d` last. Anything else has no UPC-E form.
pub open spec fn upce_compress_spec(a: Seq<u8>) -> Option<(u8, Seq<u8>)> {
    if a.len() != 11 {
        None
    } else if a[3] <= 2 && a[4] == 0 && a[5] == 0 && a[6] == 0 && a[7] == 0 {
        Some((a[0], seq![a[1], a[2], a[8], a[9], a[10], a[3]]))
    } else if a[4] == 0 && a[5] == 0 && a[6] == 0 && a[7] == 0 && a[8] == 0 {
        Some((a[0], seq![a[1], a[2], a[3], a[9], a[10], 3u8]))
    } else if a[5] == 0 && a[6] == 0 && a[7] == 0 && a[8] == 0 && a[9] == 0 {
        Some((a[0], seq![a[1], a[2], a[3], a[4], a[10], 4u8]))
    } else if a[6] == 0 && a[7] == 0 && a[8] == 0 && a[9] == 0 && a[10] >= 5 {
        Some((a[0], seq![a[1], a[2], a[3], a[4], a[5], a[10]]))
    } else {
        None
    }
}

/// UPC-E expansion follows the zero-suppression rules: compressing the UPC-A
/// number a canonical payload expands to gives back the number system and payload.
pub proof fn lemma_upce_expand_compresses(ns: u8, d: Seq<u8>)
    requires
        upce_canonical(d),
    ensures
        upce_expand_spec(ns, d).len() == 11,
        upce_compress_spec(upce_expand_spec(ns, d)) matches Some((n, p)) && n == ns && p == d,
{
    let a = upce_expand_spec(ns, d);
    assert(d[0] <= 9 && d[1] <= 9 && d[2] <= 9 && d[3] <= 9 && d[4] <= 9 && d[5] <= 9);
    if d[5] <= 2 {
        assert(seq![a[1], a[2], a[8], a[9], a[10], a[3]] =~= d);
    } else if d[5] == 3 {
        assert(seq![a[1], a[2], a[3], a[9], a[10], 3u8] =~= d);
    } else if d[5] == 4 {
        assert(seq![a[1], a[2], a[3], a[4], a[10], 4u8] =~= d);
    } else {
        assert(seq![a[1], a[2], a[3], a[4], a[5], a[10]] =~= d);
    }
}

/// Expand a UPC-E payload (number system `ns` plus six payload digit values) into
/// the eleven UPC-A data digits (number system + ten), excluding the check digit.
///
/// The last payload digit selects one of four zero-insertion rules.
pub fn upce_expand(ns: u8, payload: &[u8; 6]) -> (r: [u8; 11])
    ensures
        r@ == upce_expand_spec(ns, payload@),
{
    let d = payload;
    let z = 0u8;
    let r: [u8; 11] = if d[5] <= 2 {
        [ns, d[0], d[1], d[5], z, z, z, z, d[2], d[3], d[4]]
    } else if d[5] == 3 {
        [ns, d[0], d[1], d[2], z, z, z, z, z, d[3], d[4]]
    } else if d[5] == 4 {
        [ns, d[0], d[1], d[2], d[3], z, z, z, z, z, d[4]]
    } else {
        [ns, d[0], d[1], d[2], d[3], d[4], z, z, z, z, d[5]]
    };
    proof {
        assert(r@ =~= upce_expand_spec(ns, payload@));
    }
    r
}

} // verus!
