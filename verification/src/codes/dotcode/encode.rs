//! DotCode encoding: data encodation (Code Set A/B/C + binary), symbol sizing,
//! padding, mask selection and dot placement (AIM ISS DotCode Rev 4.0, Annexes A/F).
use vstd::prelude::*;
use crate::error::Error;
use crate::codes::dotcode::DotCodeMeta;
use crate::codes::dotcode::score::score_array;
use crate::output::{BitMatrix, Encoding};
use crate::segment::{copy_bytes, Mode, Segment};
use crate::symbol::{Symbol, SymbolMeta};
use crate::symbology::Symbology;
use crate::codes::dotcode::scan::{
    digit,
    ahead_a, ahead_a_spec, ahead_b, ahead_b_spec, ahead_c_spec, binary, binary_spec, datum_a,
    datum_a_spec, datum_b, datum_b_spec, datum_c, is_digit, is_twodigits, seventeen_ten, to_int2, try_c,
    try_c_spec, twodigits_spec,
};
use crate::codes::dotcode::rs::{block_ok, rsencode, step_of};
use crate::codes::dotcode::decode::{b_bytes, p103};
use vstd::arithmetic::div_mod::lemma_div_denominator;
use crate::codes::dotcode::tables::{
    corner_slots, data_cell, data_rank, is_corner, lemma_visit_index, sget, visit_index, DC_DOT_PATTERNS,
    min_dots_for, min_dots_spec,
    BIN_LATCH, FNC1, FNC2, FNC3, LATCH_A, LATCH_B_FROM_A, LATCH_BC, UPPER_SHIFT_A, UPPER_SHIFT_B,
};

verus! {

/// The four states of the encodation state machine.
#[derive(Debug, Clone, Copy, PartialEq, Eq, Structural)]
pub enum CodeSet {
    A,
    B,
    C,
    /// Binary (base-259 packed into base-103).
    X,
}

/// `after` continues `before`.
pub open spec fn extends(after: Seq<u8>, before: Seq<u8>) -> bool {
    after.len() >= before.len() && forall|k: int| 0 <= k < before.len() ==> #[trigger] after[k] == before[k]
}

/// Every codeword is a value of the field GF(113).
pub open spec fn all_codewords(s: Seq<u8>) -> bool {
    forall|k: int| 0 <= k < s.len() ==> #[trigger] s[k] < 113
}

/// `259^n`.
pub open spec fn p259(n: nat) -> nat
    decreases n,
{
    if n == 0 {
        1
    } else {
        259 * p259((n - 1) as nat)
    }
}

/// The `n` base-103 digits of `v`, most significant first.
pub open spec fn b103_digits(v: nat, n: nat) -> Seq<u8> {
    Seq::new(n, |i: int| ((v / p103((n - 1 - i) as nat)) % 103) as u8)
}

proof fn lemma_p103_pos(n: nat)
    ensures
        p103(n) >= 1,
    decreases n,
{
    if n > 0 {
        lemma_p103_pos((n - 1) as nat);
    }
}

/// Binary buffer that packs 5 base-259 values into 6 base-103 codewords.
pub struct BinBuf {
    pub buf: u64,
    pub size: usize,
}

impl BinBuf {
    /// At most four values are pending, packed as a base-259 number.
    pub open spec fn inv(&self) -> bool {
        self.size <= 4 && self.buf < p259(self.size as nat)
    }

    pub fn new() -> (b: Self)
        ensures
            b.inv(),
            b.size == 0,
    {
        BinBuf { buf: 0, size: 0 }
    }

    /// Flush the pending values as `size + 1` base-103 digits, most significant
    /// first (nothing when no value is pending).
    pub fn empty(&mut self, out: &mut Vec<u8>)
        requires
            old(self).size <= 5,
            old(self).buf < p259(old(self).size as nat),
        ensures
            final(self).inv(),
            final(self).size == 0,
            final(self).buf == 0,
            final(out)@.len() == old(out)@.len() + (if old(self).size == 0 { 0 } else { old(self).size + 1 }),
            final(out)@.subrange(0, old(out)@.len() as int) == old(out)@,
            forall|k: int| old(out)@.len() <= k < final(out)@.len() ==> #[trigger] final(out)@[k] < 103,
            final(out)@ == old(out)@ + b103_digits(
                old(self).buf as nat,
                (if old(self).size == 0 { 0 } else { old(self).size + 1 }) as nat,
            ),
    {
        if self.size != 0 {
            let n = self.size + 1;
            let mut digits: Vec<u8> = Vec::new();
            let mut buf = self.buf;
            let ghost buf0: nat = buf as nat;
            let mut i: usize = 0;
            assert(p103(0) == 1);
            while i < n
                invariant
                    i <= n,
                    digits@.len() == i,
                    forall|k: int| 0 <= k < i ==> #[trigger] digits@[k] < 103,
                    forall|k: int| 0 <= k < i ==> #[trigger] digits@[k] == ((buf0 / p103(k as nat)) % 103) as u8,
                    buf == buf0 / p103(i as nat),
                decreases n - i,
            {
                proof {
                    lemma_p103_pos(i as nat);
                    lemma_div_denominator(buf0 as int, p103(i as nat) as int, 103);
                    assert(p103((i + 1) as nat) == 103 * p103(i as nat));
                    assert(p103(i as nat) * 103 == 103 * p103(i as nat)) by (nonlinear_arith);
                }
                digits.push((buf % 103) as u8);
                buf = buf / 103;
                i = i + 1;
            }
            let ghost start = out@;
            let mut j: usize = 0;
            while j < n
                invariant
                    j <= n,
                    digits@.len() == n,
                    forall|k: int| 0 <= k < n ==> #[trigger] digits@[k] < 103,
                    out@.len() == start.len() + j,
                    out@.subrange(0, start.len() as int) == start,
                    forall|k: int| start.len() <= k < out@.len() ==> #[trigger] out@[k] < 103,
                    forall|k: int| 0 <= k < n ==> #[trigger] digits@[k] == ((buf0 / p103(k as nat)) % 103) as u8,
                    out@ == start + b103_digits(buf0, n as nat).subrange(0, j as int),
                decreases n - j,
            {
                out.push(digits[n - 1 - j]);
                j = j + 1;
                proof {
                    assert(out@.subrange(0, start.len() as int) =~= start);
                    assert(out@ =~= start + b103_digits(buf0, n as nat).subrange(0, j as int));
                }
            }
            assert(b103_digits(buf0, n as nat).subrange(0, n as int) =~= b103_digits(buf0, n as nat));
        } else {
            proof {
                assert(out@.subrange(0, out@.len() as int) =~= out@);
                assert(out@ + b103_digits(self.buf as nat, 0) =~= out@);
            }
        }
        self.buf = 0;
        self.size = 0;
    }

    /// Add one base-259 value, flushing after every fifth.
    pub fn append(&mut self, out: &mut Vec<u8>, val: u32)
        requires
            old(self).inv(),
            val < 259,
            all_codewords(old(out)@),
        ensures
            extends(final(out)@, old(out)@),
            final(self).inv(),
            all_codewords(final(out)@),
            final(out)@.len() >= old(out)@.len(),
            old(self).size + 1 == 5 ==> final(self).size == 0 && final(self).buf == 0 && final(out)@ == old(out)@
                + b103_digits((old(self).buf * 259 + val) as nat, 6),
            old(self).size + 1 < 5 ==> final(self).size == old(self).size + 1 && final(self).buf == old(self).buf
                * 259 + val && final(out)@ == old(out)@,
    {
        proof {
            assert(p259((self.size + 1) as nat) == 259 * p259(self.size as nat));
            assert(p259(4) == 259 * 259 * 259 * 259) by {
                reveal_with_fuel(p259, 5);
            }
            assert(p259(self.size as nat) <= p259(4)) by {
                reveal_with_fuel(p259, 5);
            }
            assert(self.buf * 259 + val < 259 * p259(self.size as nat)) by (nonlinear_arith)
                requires
                    self.buf < p259(self.size as nat),
                    val < 259,
            ;
            assert(259 * p259(self.size as nat) <= 259 * p259(4)) by (nonlinear_arith)
                requires
                    p259(self.size as nat) <= p259(4),
            ;
        }
        self.buf = self.buf * 259 + val as u64;
        self.size = self.size + 1;
        if self.size == 5 {
            let ghost before = out@;
            self.empty(out);
            proof {
                assert forall|k: int| 0 <= k < out@.len() implies #[trigger] out@[k] < 113 by {
                    if k < before.len() {
                        assert(out@[k] == out@.subrange(0, before.len() as int)[k]);
                    }
                }
            }
        }
    }
}

/// Emit one Code Set B character at `src[pos]`, returning the next position.
pub fn emit_b_char(src: &[u8], pos: usize, out: &mut Vec<u8>) -> (next: usize)
    requires
        datum_b_spec(src@, pos as int) != 0,
    ensures
        next == pos + datum_b_spec(src@, pos as int),
        final(out)@.len() == old(out)@.len() + 1,
        final(out)@.drop_last() == old(out)@,
        final(out)@.last() < 113,
        b_bytes(final(out)@.last()) == src@.subrange(pos as int, next as int),
{
    let c = src[pos];
    if c >= 32 {
        out.push(c - 32);
        pos + 1
    } else if c == 13 {
        out.push(96);
        pos + 2
    } else {
        let v: u8 = if c == 9 {
            97
        } else if c == 28 {
            98
        } else if c == 29 {
            99
        } else {
            100
        };
        out.push(v);
        pos + 1
    }
}

/// Code Set A takes `pos` outright.
pub open spec fn cond_a(s: Seq<u8>, pos: int) -> bool {
    datum_a_spec(s, pos) && try_c_spec(s, pos) < 2
}

/// Code Set B could take `pos`.
pub open spec fn cond_b(s: Seq<u8>, pos: int) -> bool {
    datum_b_spec(s, pos) != 0 && try_c_spec(s, pos) < 2
}

/// Code Set B takes `pos` outright (a special control byte at position 0 would read
/// as a macro header, so it is not taken there).
pub open spec fn cond_b_sure(s: Seq<u8>, pos: int, gs1: bool) -> bool {
    cond_b(s, pos) && (32 <= s[pos] <= 127 || datum_b_spec(s, pos) == 2 || pos != 0 || (gs1 && s[pos] == 29))
}

/// The state machine makes progress from `(set, pos)` in one step.
pub open spec fn sure(set: CodeSet, s: Seq<u8>, pos: int, gs1: bool) -> bool {
    match set {
        CodeSet::A => cond_a(s, pos),
        CodeSet::B => cond_b_sure(s, pos, gs1),
        CodeSet::C => twodigits_spec(s, pos),
        CodeSet::X => binary_spec(s, pos),
    }
}

/// The state machine makes progress from `(set, pos)` within two steps.
pub open spec fn weak(set: CodeSet, s: Seq<u8>, pos: int, gs1: bool) -> bool {
    sure(set, s, pos, gs1) || (set == CodeSet::B && cond_b(s, pos))
}

/// Emit `n` digit pairs from `pos` (an "n Shift C" run).
fn emit_pairs(src: &[u8], pos: usize, n: usize, out: &mut Vec<u8>) -> (next: usize)
    requires
        ahead_c_spec(src@, pos as int) >= n,
        all_codewords(old(out)@),
        pos <= src@.len(),
    ensures
        extends(final(out)@, old(out)@),
        next == pos + 2 * n,
        next <= src@.len(),
        all_codewords(final(out)@),
        final(out)@.len() == old(out)@.len() + n,
{
    let len = src.len();
    let mut p = pos;
    let mut k: usize = 0;
    while k < n
        invariant
            len == src@.len(),
            k <= n,
            p == pos + 2 * k,
            p <= src@.len(),
            ahead_c_spec(src@, p as int) >= n - k,
            all_codewords(out@),
            extends(out@, old(out)@),
            out@.len() == old(out)@.len() + k,
        decreases n - k,
    {
        assert(twodigits_spec(src@, p as int));
        let v = to_int2(src, p);
        out.push(v);
        p = p + 2;
        k = k + 1;
    }
    p
}

/// Emit `n` Code Set B characters from `pos` (an "n Shift B" run).
fn emit_b_run(src: &[u8], pos: usize, n: usize, out: &mut Vec<u8>) -> (next: usize)
    requires
        ahead_b_spec(src@, pos as int) >= n,
        all_codewords(old(out)@),
        pos <= src@.len(),
    ensures
        extends(final(out)@, old(out)@),
        next >= pos + n,
        next <= src@.len(),
        all_codewords(final(out)@),
{
    let mut p = pos;
    let mut k: usize = 0;
    while k < n
        invariant
            k <= n,
            p >= pos + k,
            p <= src@.len(),
            ahead_b_spec(src@, p as int) >= n - k,
            all_codewords(out@),
            extends(out@, old(out)@),
        decreases n - k,
    {
        let ghost before = out@;
        p = emit_b_char(src, p, out);
        proof {
            assert forall|i: int| 0 <= i < out@.len() implies #[trigger] out@[i] < 113 by {
                if i < before.len() {
                    assert(out@[i] == out@.drop_last()[i]);
                }
            }
            assert forall|i: int| 0 <= i < before.len() implies #[trigger] out@[i] == before[i] by {
                assert(out@[i] == out@.drop_last()[i]);
            }
        }
        k = k + 1;
    }
    p
}

/// Push an upper-shifted binary byte (`src[pos]` ≥ 128) as Upper Shift A/B.
fn emit_upper_shift(c: u8, out: &mut Vec<u8>)
    requires
        c >= 128,
        all_codewords(old(out)@),
    ensures
        extends(final(out)@, old(out)@),
        all_codewords(final(out)@),
        final(out)@.len() == old(out)@.len() + 2,
{
    if c - 128 < 32 {
        out.push(UPPER_SHIFT_A);
        out.push(c - 128 + 64);
    } else {
        out.push(UPPER_SHIFT_B);
        out.push(c - 128 - 32);
    }
}

/// One step of Code Set C (Annex F, steps C2–C4).
fn step_c(src: &[u8], pos: usize, gs1: bool, out: &mut Vec<u8>) -> (r: (usize, CodeSet))
    requires
        pos < src@.len(),
        all_codewords(old(out)@),
    ensures
        final(out)@.len() > old(out)@.len(),
        extends(final(out)@, old(out)@),
        all_codewords(final(out)@),
        r.0 <= src@.len(),
        r.0 > pos || (r.0 == pos && ((r.1 == CodeSet::A && cond_a(src@, pos as int))
            || (r.1 == CodeSet::X && binary_spec(src@, pos as int))
            || (r.1 == CodeSet::B && cond_b(src@, pos as int)))),
        twodigits_spec(src@, pos as int) ==> r.0 > pos,
        r.0 > pos ==> r.1 == CodeSet::C,
{
    let length = src.len();
    // Step C2
    if seventeen_ten(src, pos) {
        proof {
            assert(digit(src@[pos as int + 2]) && digit(src@[pos as int + 3]));
            assert(digit(src@[pos as int + 4]) && digit(src@[pos as int + 5]));
            assert(digit(src@[pos as int + 6]) && digit(src@[pos as int + 7]));
        }
        out.push(100);
        out.push(to_int2(src, pos + 2));
        out.push(to_int2(src, pos + 4));
        out.push(to_int2(src, pos + 6));
        return (pos + 10, CodeSet::C);
    }
    if datum_c(src, pos) || (gs1 && src[pos] == 29) {
        if src[pos] == 29 {
            out.push(FNC1);
            return (pos + 1, CodeSet::C);
        } else {
            out.push(to_int2(src, pos));
            return (pos + 2, CodeSet::C);
        }
    }
    // Step C3
    if binary(src, pos) {
        if pos + 1 < length && is_digit(src[pos + 1]) {
            emit_upper_shift(src[pos], out);
            return (pos + 1, CodeSet::C);
        } else {
            out.push(BIN_LATCH);
            return (pos, CodeSet::X);
        }
    }
    // Step C4
    let m = ahead_a(src, pos);
    let (_, nx) = ahead_b(src, pos);
    assert(try_c_spec(src@, pos as int) == 0);
    if m > nx {
        out.push(LATCH_A);
        (pos, CodeSet::A)
    } else if 1 <= nx && nx <= 4 {
        out.push(101 + nx as u8);
        let p = emit_b_run(src, pos, nx, out);
        (p, CodeSet::C)
    } else {
        proof {
            if nx == 0 {
                assert(m == 0);
                assert(ahead_a_spec(src@, pos as int) == 0);
                assert(try_c_spec(src@, pos as int) < 2);
                assert(!datum_a_spec(src@, pos as int));
                assert(datum_b_spec(src@, pos as int) == 1);
            }
        }
        out.push(LATCH_BC);
        (pos, CodeSet::B)
    }
}

/// One step of Code Set B (Annex F, steps D1–D4).
fn step_b(src: &[u8], pos: usize, gs1: bool, out: &mut Vec<u8>) -> (r: (usize, CodeSet))
    requires
        pos < src@.len(),
        all_codewords(old(out)@),
    ensures
        final(out)@.len() > old(out)@.len(),
        extends(final(out)@, old(out)@),
        all_codewords(final(out)@),
        r.0 <= src@.len(),
        r.0 > pos || (r.0 == pos && ((r.1 == CodeSet::C && twodigits_spec(src@, pos as int))
            || (r.1 == CodeSet::X && binary_spec(src@, pos as int))
            || (r.1 == CodeSet::A && cond_a(src@, pos as int)))),
        cond_b_sure(src@, pos as int, gs1) ==> r.0 > pos,
        r.0 > pos ==> r.1 == CodeSet::B,
{
    // Step D1
    let n = try_c(src, pos);
    if n >= 2 {
        if n <= 4 {
            out.push(103 + (n as u8 - 2));
            let p = emit_pairs(src, pos, n, out);
            return (p, CodeSet::B);
        } else {
            out.push(LATCH_BC);
            return (pos, CodeSet::C);
        }
    }
    // Step D2
    if gs1 && src[pos] == 29 {
        out.push(FNC1);
        return (pos + 1, CodeSet::B);
    }
    if datum_b(src, pos) != 0 {
        let c = src[pos];
        if 32 <= c && c <= 127 {
            out.push(c - 32);
            return (pos + 1, CodeSet::B);
        } else if c == 13 {
            out.push(96);
            return (pos + 2, CodeSet::B);
        } else if pos != 0 {
            let v: u8 = if c == 9 {
                97
            } else if c == 28 {
                98
            } else if c == 29 {
                99
            } else {
                100
            };
            out.push(v);
            return (pos + 1, CodeSet::B);
        }
    }
    // Step D3
    if binary(src, pos) {
        if src.len() - pos > 1 && datum_b(src, pos + 1) != 0 {
            emit_upper_shift(src[pos], out);
            return (pos + 1, CodeSet::B);
        } else {
            out.push(BIN_LATCH);
            return (pos, CodeSet::X);
        }
    }
    // Step D4
    if ahead_a(src, pos) == 1 {
        out.push(LATCH_A);
        let c = src[pos];
        if c < 32 {
            out.push(c + 64);
        } else {
            out.push(c - 32);
        }
        (pos + 1, CodeSet::B)
    } else {
        out.push(LATCH_B_FROM_A);
        (pos, CodeSet::A)
    }
}

/// One step of Code Set A (Annex F, steps E1–E4).
fn step_a(src: &[u8], pos: usize, gs1: bool, out: &mut Vec<u8>) -> (r: (usize, CodeSet))
    requires
        pos < src@.len(),
        all_codewords(old(out)@),
    ensures
        final(out)@.len() > old(out)@.len(),
        extends(final(out)@, old(out)@),
        all_codewords(final(out)@),
        r.0 <= src@.len(),
        r.0 > pos || (r.0 == pos && ((r.1 == CodeSet::C && twodigits_spec(src@, pos as int))
            || (r.1 == CodeSet::X && binary_spec(src@, pos as int))
            || (r.1 == CodeSet::B && cond_b_sure(src@, pos as int, gs1)))),
        cond_a(src@, pos as int) ==> r.0 > pos,
        r.0 > pos ==> r.1 == CodeSet::A,
{
    // Step E1
    let n = try_c(src, pos);
    if n >= 2 {
        if n <= 4 {
            out.push(103 + (n as u8 - 2));
            let p = emit_pairs(src, pos, n, out);
            return (p, CodeSet::A);
        } else {
            out.push(LATCH_BC);
            return (pos, CodeSet::C);
        }
    }
    // Step E2
    if gs1 && src[pos] == 29 {
        out.push(FNC1);
        return (pos + 1, CodeSet::A);
    }
    if datum_a(src, pos) {
        let c = src[pos];
        if c < 32 {
            out.push(c + 64);
        } else {
            out.push(c - 32);
        }
        return (pos + 1, CodeSet::A);
    }
    // Step E3
    if binary(src, pos) {
        if src.len() - pos > 1 && datum_a(src, pos + 1) {
            emit_upper_shift(src[pos], out);
            return (pos + 1, CodeSet::A);
        } else {
            out.push(BIN_LATCH);
            return (pos, CodeSet::X);
        }
    }
    // Step E4
    let (_, nx) = ahead_b(src, pos);
    if 1 <= nx && nx <= 6 {
        out.push(95 + nx as u8);
        let p = emit_b_run(src, pos, nx, out);
        (p, CodeSet::A)
    } else {
        out.push(LATCH_B_FROM_A);
        (pos, CodeSet::B)
    }
}

/// One step of binary mode (Annex F, steps F1–F3).
fn step_x(src: &[u8], pos: usize, out: &mut Vec<u8>, bin: &mut BinBuf) -> (r: (usize, CodeSet))
    requires
        pos < src@.len(),
        all_codewords(old(out)@),
        old(bin).inv(),
    ensures
        extends(final(out)@, old(out)@),
        all_codewords(final(out)@),
        final(bin).inv(),
        r.0 <= src@.len(),
        r.0 > pos || (r.0 == pos && ((r.1 == CodeSet::C && twodigits_spec(src@, pos as int))
            || (r.1 == CodeSet::A && cond_a(src@, pos as int))
            || (r.1 == CodeSet::B && cond_b(src@, pos as int)))),
        binary_spec(src@, pos as int) ==> r.0 > pos,
        r.0 > pos ==> r.1 == CodeSet::X,
        r.1 != CodeSet::X ==> final(bin).size == 0,
{
    // Step F1
    let n = try_c(src, pos);
    if n >= 2 {
        flush(bin, out);
        if n <= 7 {
            out.push(101 + n as u8);
            let p = emit_pairs(src, pos, n, out);
            return (p, CodeSet::X);
        } else {
            out.push(UPPER_SHIFT_B);
            return (pos, CodeSet::C);
        }
    }
    // Step F2
    let rest = src.len() - pos;
    if binary(src, pos) || (rest > 1 && binary(src, pos + 1)) || (rest > 2 && binary(src, pos + 2))
        || (rest > 3 && binary(src, pos + 3)) {
        bin.append(out, src[pos] as u32);
        return (pos + 1, CodeSet::X);
    }
    // Step F3
    flush(bin, out);
    let m = ahead_a(src, pos);
    let (_, nx) = ahead_b(src, pos);
    if m > nx {
        out.push(FNC3);
        (pos, CodeSet::A)
    } else {
        proof {
            if nx == 0 {
                assert(m == 0);
                assert(ahead_a_spec(src@, pos as int) == 0);
                assert(try_c_spec(src@, pos as int) < 2);
                assert(!datum_a_spec(src@, pos as int));
                assert(datum_b_spec(src@, pos as int) == 1);
            }
        }
        out.push(UPPER_SHIFT_A);
        (pos, CodeSet::B)
    }
}

/// Flush the binary buffer, keeping every codeword in the field.
fn flush(bin: &mut BinBuf, out: &mut Vec<u8>)
    requires
        old(bin).inv(),
        all_codewords(old(out)@),
    ensures
        extends(final(out)@, old(out)@),
        final(bin).inv(),
        final(bin).size == 0,
        all_codewords(final(out)@),
        final(out)@.len() >= old(out)@.len(),
{
    let ghost before = out@;
    bin.empty(out);
    proof {
        assert forall|k: int| 0 <= k < out@.len() implies #[trigger] out@[k] < 113 by {
            if k < before.len() {
                assert(out@[k] == out@.subrange(0, before.len() as int)[k]);
            }
        }
    }
}

/// Encode one data segment into DotCode codewords (before padding, masking and
/// error correction), running the Code Set A/B/C/binary state machine of Annex F.
///
/// Returns the codewords and whether the message ends in binary mode.
pub fn encode_message(source: &[u8], eci: u32, gs1: bool, reader_init: bool) -> (r: (Vec<u8>, bool))
    requires
        eci <= 811799,
    ensures
        all_codewords(r.0@),
        reader_init ==> r.0@.len() > 0 && r.0@[0] == FNC3,
        source@.len() > 0 ==> r.0@.len() > 0,
{
    let length = source.len();
    let mut out: Vec<u8> = Vec::new();
    let mut mode = CodeSet::C;
    let mut inside_macro: u8 = 0;
    let mut bin = BinBuf::new();
    let mut position: usize = 0;

    let last_eot = length > 0 && source[length - 1] == 4;
    let last_rseot = last_eot && length > 1 && source[length - 2] == 30;

    // Leading handling of the (first and only) segment.
    if reader_init {
        out.push(FNC3);
    } else if !gs1 && eci == 0 && length >= 2 && is_twodigits(source, 0) {
        out.push(FNC1);
    } else if length > 0 && (source[0] == 9 || source[0] == 28 || source[0] == 29 || source[0] == 30) {
        out.push(LATCH_A);
        out.push(source[0] + 64);
        mode = CodeSet::A;
        position = 1;
    } else if length > 5 && source[0] == 91 && source[1] == 41 && source[2] == 62 && source[3] == 30
        && last_eot {
        // Macro header "[)>" RS.
        let format_050612 = (source[4] == 48 && (source[5] == 53 || source[5] == 54)) || (source[4] == 49
            && source[5] == 50);
        if length > 6 && format_050612 && source[6] == 29 && last_rseot {
            inside_macro = if source[5] == 53 {
                97
            } else if source[5] == 54 {
                98
            } else {
                99
            };
        } else if !format_050612 && is_twodigits(source, 4) {
            inside_macro = 100;
        }
        if inside_macro != 0 {
            out.push(LATCH_BC);
            mode = CodeSet::B;
            out.push(inside_macro);
            if inside_macro == 100 {
                out.push((source[4] - 48) + 16);
                out.push((source[5] - 48) + 16);
                position = 6;
            } else {
                position = 7;
            }
        }
    }
    let ghost lead = out@;

    // ECI designator (the state machine is never in binary mode here).
    if eci > 0 {
        out.push(FNC2);
        if eci <= 39 {
            out.push(eci as u8);
        } else {
            let v = eci - 40;
            let a = v / 12769;
            let rem = v % 12769;
            let b = rem / 113;
            let c = rem % 113;
            assert(a <= 63 && b < 113) by (nonlinear_arith)
                requires
                    v <= 811759,
                    a == v / 12769,
                    rem < 12769,
                    b == rem / 113,
            ;
            out.push((a + 40) as u8);
            out.push(b as u8);
            out.push(c as u8);
        }
    }
    proof {
        if reader_init {
            assert(out@[0] == lead[0]);
        }
    }
    let ghost head = out@;

    // Main loop.
    let ghost mut budget: int = 2;
    while position < length
        invariant
            length == source@.len(),
            position <= length,
            all_codewords(out@),
            extends(out@, head),
            bin.inv(),
            out@.len() > 0 || (position == 0 && mode == CodeSet::C),
            inside_macro != 0 ==> out@.len() > 0,
            0 <= budget <= 2,
            budget == 2 || (budget == 1 && weak(mode, source@, position as int, gs1)) || (budget == 0
                && sure(mode, source@, position as int, gs1)),
        decreases 3 * (length - position) + budget,
    {
        let ghost before = out@;
        // Macro end-of-data steps.
        if inside_macro != 0 && inside_macro != 100 && length - position == 2 {
            position = position + 2;
            proof {
                budget = 2;
            }
            continue;
        }
        if inside_macro == 100 && length - position == 1 {
            position = position + 1;
            proof {
                budget = 2;
            }
            continue;
        }
        let r = match mode {
            CodeSet::C => step_c(source, position, gs1, &mut out),
            CodeSet::B => step_b(source, position, gs1, &mut out),
            CodeSet::A => step_a(source, position, gs1, &mut out),
            CodeSet::X => step_x(source, position, &mut out, &mut bin),
        };
        proof {
            if r.0 > position {
                budget = 2;
            } else {
                budget = budget - 1;
            }
        }
        position = r.0;
        mode = r.1;
    }
    if mode == CodeSet::X && bin.size != 0 {
        let ghost before = out@;
        flush(&mut bin, &mut out);
    }
    proof {
        if reader_init {
            assert(out@[0] == head[0]);
        }
    }
    let ended_binary = mode == CodeSet::X;
    (out, ended_binary)
}


/// How many pad codewords fill `padding_dots` spare dots after `data_length` data
/// codewords: each pad takes nine dots, plus nine more for every second pad's extra
/// check codeword.
pub open spec fn pad_count(padding_dots: int, data_length: int) -> nat
    decreases padding_dots,
{
    if padding_dots < 9 {
        0
    } else if padding_dots < 18 && data_length % 2 == 0 {
        1 + pad_count(padding_dots - 9, data_length + 1)
    } else if padding_dots >= 18 {
        if data_length % 2 == 0 {
            1 + pad_count(padding_dots - 9, data_length + 1)
        } else {
            1 + pad_count(padding_dots - 18, data_length + 1)
        }
    } else {
        0
    }
}

/// The pad codewords: Latch B, except a binary-terminating FNC3 first when the
/// message ended in binary mode.
pub open spec fn pads(n: nat, binary_finish: bool) -> Seq<u8> {
    Seq::new(n, |i: int| if i == 0 && binary_finish { FNC3 } else { LATCH_BC })
}

/// Append pad codewords to fill a `width × height` symbol.
pub fn add_padding(codewords: Vec<u8>, width: usize, height: usize, binary_finish: bool) -> (r: Vec<u8>)
    requires
        codewords@.len() <= 0x0fff_ffff,
        width * height <= 0x0fff_ffff,
    ensures
        r@ == codewords@ + pads(
            pad_count((width * height) / 2 - min_dots_spec(codewords@.len() as int), codewords@.len() as int),
            binary_finish,
        ),
{
    let mut codewords = codewords;
    let n_dots = (height * width) / 2;
    let min_dots = min_dots_for(codewords.len());
    let ghost orig = codewords@;
    let ghost total = pad_count(n_dots - min_dots, orig.len() as int);
    let mut padding_dots: i64 = n_dots as i64 - min_dots as i64;
    let mut data_length = codewords.len();
    let mut is_first = true;
    assert(height * width == width * height) by (nonlinear_arith);
    while padding_dots >= 9 && !(padding_dots < 18 && data_length % 2 == 1)
        invariant
            orig.len() <= data_length,
            min_dots == min_dots_spec(orig.len() as int),
            n_dots <= 0x0fff_ffff,
            9 * (data_length - orig.len()) + padding_dots <= n_dots - min_dots,
            codewords@.len() == data_length,
            padding_dots >= -(min_dots as int),
            is_first == (data_length == orig.len()),
            total == (data_length - orig.len()) + pad_count(padding_dots as int, data_length as int),
            codewords@ == orig + pads((data_length - orig.len()) as nat, binary_finish),
        decreases padding_dots,
    {
        if padding_dots < 18 {
            padding_dots = padding_dots - 9;
        } else if data_length % 2 == 0 {
            padding_dots = padding_dots - 9;
        } else {
            padding_dots = padding_dots - 18;
        }
        if is_first && binary_finish {
            codewords.push(FNC3);
        } else {
            codewords.push(LATCH_BC);
        }
        data_length = data_length + 1;
        is_first = false;
        proof {
            assert(codewords@ =~= orig + pads((data_length - orig.len()) as nat, binary_finish));
        }
    }
    proof {
        assert(pad_count(padding_dots as int, data_length as int) == 0);
    }
    codewords
}

/// The floating-point first guess at an automatic symbol size: the integer parts
/// of `sqrt(0.666 · area)` (height) and `sqrt(1.5 · area)` (width), and whether
/// widening loses less of the guess than heightening.
#[derive(Debug, Clone, Copy, PartialEq, Eq, Structural)]
pub struct SizeEstimate {
    /// Integer part of the height guess.
    pub height: usize,
    /// Integer part of the width guess.
    pub width: usize,
    /// `height_guess · width < width_guess · height`: grow the width first.
    pub widen: bool,
}

/// The size an automatic choice settles on before range checks.
pub open spec fn auto_size(min_area: int, est: SizeEstimate) -> (int, int) {
    let h = est.height as int;
    let w = est.width as int;
    if (w + h) % 2 == 1 {
        if w * h < min_area { (w + 1, h + 1) } else { (w, h) }
    } else if est.widen {
        if (w + 1) * h < min_area {
            if w * (h + 1) < min_area { (w + 2, h + 1) } else { (w, h + 1) }
        } else {
            (w + 1, h)
        }
    } else {
        if w * (h + 1) < min_area {
            if (w + 1) * h < min_area { (w + 1, h + 2) } else { (w + 1, h) }
        } else {
            (w, h + 1)
        }
    }
}

/// The height a user-chosen width needs: enough rows for the area, at least five,
/// with odd `width + height`.
pub open spec fn height_for_width(min_area: int, w: int) -> int {
    let h0 = (min_area + w - 1) / w;
    let h1 = if h0 < 5 { 5 } else { h0 };
    if (w + h1) % 2 == 0 { h1 + 1 } else { h1 }
}

/// The symbol size for `data_length` codewords (see [`select_size`]).
pub open spec fn size_spec(data_length: int, width: Option<usize>, est: SizeEstimate) -> Result<(int, int), Error> {
    let min_area = min_dots_spec(data_length) * 2;
    match width {
        Some(w) => if !(5 <= w <= 200) {
            Err(Error::InvalidParameter)
        } else {
            let h = height_for_width(min_area, w as int);
            if h > 200 { Err(Error::Capacity) } else { Ok((w as int, h)) }
        },
        None => {
            let (w, h) = auto_size(min_area, est);
            if h > 200 || w > 200 {
                Err(Error::Capacity)
            } else {
                Ok((if w < 5 { 5 } else { w }, if h < 5 { 5 } else { h }))
            }
        },
    }
}

/// Choose `(width, height)` for `data_length` codewords: from a user-requested
/// `width` (5–200), or else starting from the estimate `est` and adjusting until
/// the area holds the data with odd `width + height`.
pub fn select_size(data_length: usize, width: Option<usize>, est: SizeEstimate) -> (r: Result<(usize, usize), Error>)
    requires
        data_length <= 0x00ff_ffff,
        est.height <= 0x7fff,
        est.width <= 0x7fff,
    ensures
        match r {
            Ok((w, h)) => size_spec(data_length as int, width, est) == Ok::<(int, int), Error>((w as int, h as int)),
            Err(e) => size_spec(data_length as int, width, est) == Err::<(int, int), Error>(e),
        },
{
    let md = min_dots_for(data_length);
    assert(md <= 0x1000_0000);
    let min_area = md * 2;
    let (mut w, mut h) = match width {
        Some(uw) => {
            if !(5 <= uw && uw <= 200) {
                return Err(Error::InvalidParameter);
            }
            let mut hh = (min_area + uw - 1) / uw;
            if hh < 5 {
                hh = 5;
            }
            if (uw + hh) % 2 == 0 {
                hh = hh + 1;
            }
            (uw, hh)
        },
        None => {
            let hg = est.height;
            let wg = est.width;
            proof {
                assert((wg + 2) * (hg + 2) <= 0x8001 * 0x8001) by (nonlinear_arith)
                    requires
                        wg <= 0x7fff,
                        hg <= 0x7fff,
                ;
                assert(wg * hg <= (wg + 1) * hg <= (wg + 2) * (hg + 2)) by (nonlinear_arith);
                assert(wg * (hg + 1) <= (wg + 2) * (hg + 2)) by (nonlinear_arith);
            }
            if (wg + hg) % 2 == 1 {
                if wg * hg < min_area {
                    (wg + 1, hg + 1)
                } else {
                    (wg, hg)
                }
            } else if est.widen {
                if (wg + 1) * hg < min_area {
                    if wg * (hg + 1) < min_area {
                        (wg + 2, hg + 1)
                    } else {
                        (wg, hg + 1)
                    }
                } else {
                    (wg + 1, hg)
                }
            } else {
                if wg * (hg + 1) < min_area {
                    if (wg + 1) * hg < min_area {
                        (wg + 1, hg + 2)
                    } else {
                        (wg + 1, hg)
                    }
                } else {
                    (wg, hg + 1)
                }
            }
        },
    };
    if h > 200 || w > 200 {
        return Err(Error::Capacity);
    }
    if w < 5 {
        w = 5;
    }
    if h < 5 {
        h = 5;
    }
    Ok((w, h))
}

/// Mask weight step for mask `mask` (0–3).
pub open spec fn mask_step(mask: int) -> int {
    if mask == 0 {
        0
    } else if mask == 1 {
        3
    } else if mask == 2 {
        7
    } else {
        17
    }
}

/// Data codeword `j` under mask `mask`.
pub open spec fn masked(mask: int, j: int, d: int) -> int {
    ((mask_step(mask) * j) % 113 + d) % 113
}

/// `[mask, masked data…, check words…]` as built by [`build_masked_block`].
pub open spec fn masked_block_ok(block: Seq<u8>, data: Seq<u8>, mask: int) -> bool {
    let dl = data.len() as int;
    let nw = dl + 1 + 3 + dl / 2;
    &&& block.len() == nw
    &&& block[0] == mask
    &&& forall|j: int| 0 <= j < dl ==> #[trigger] block[1 + j] == masked(mask, j, data[j] as int)
    &&& forall|s: int| 0 <= s < step_of(nw) ==> #[trigger] block_ok(block, dl + 1, nw, step_of(nw), s)
}

/// Build `[mask, masked_data…, ecc…]` from unmasked data codewords: codeword `j` is
/// offset by `step · j` (mod 113), then `3 + len / 2` Reed–Solomon check words follow.
pub fn build_masked_block(data: &[u8], mask: u8) -> (block: Vec<u8>)
    requires
        mask < 4,
        data@.len() <= 40000,
        all_codewords(data@),
    ensures
        masked_block_ok(block@, data@, mask as int),
        all_codewords(block@),
{
    let data_length = data.len();
    let ecc_length = 3 + data_length / 2;
    let mut block: Vec<u8> = Vec::new();
    block.push(mask);
    let step: u32 = if mask == 0 {
        0
    } else if mask == 1 {
        3
    } else if mask == 2 {
        7
    } else {
        17
    };
    let mut j: usize = 0;
    while j < data_length
        invariant
            data_length == data@.len(),
            j <= data_length,
            data_length <= 40000,
            step == mask_step(mask as int),
            step <= 17,
            block@.len() == j + 1,
            block@[0] == mask,
            all_codewords(block@),
            forall|k: int| 0 <= k < j ==> #[trigger] block@[1 + k] == masked(mask as int, k, data@[k] as int),
        decreases data_length - j,
    {
        let weight = (step * j as u32) % 113;
        let v = ((weight + data[j] as u32) % 113) as u8;
        block.push(v);
        proof {
            assert(block@[1 + j as int] == masked(mask as int, j as int, data@[j as int] as int));
        }
        j = j + 1;
    }
    let mut k: usize = 0;
    while k < ecc_length
        invariant
            k <= ecc_length,
            block@.len() == data_length + 1 + k,
            block@[0] == mask,
            all_codewords(block@),
            forall|i: int| 0 <= i < data_length ==> #[trigger] block@[1 + i] == masked(mask as int, i, data@[i] as int),
        decreases ecc_length - k,
    {
        block.push(0);
        k = k + 1;
    }
    let ghost pre = block@;
    proof {
        let nw = data_length + 1 + ecc_length;
        assert(step_of(nw as int) <= data_length + 1 && step_of(nw as int) <= ecc_length) by (nonlinear_arith)
            requires
                nw == data_length + 1 + ecc_length,
                ecc_length == 3 + data_length / 2,
        ;
    }
    rsencode(data_length + 1, ecc_length, &mut block);
    proof {
        assert forall|i: int| 0 <= i < data_length implies #[trigger] block@[1 + i] == masked(mask as int, i, data@[i] as int) by {
            assert(block@[1 + i] == pre[1 + i]);
        }
        assert(block@[0] == pre[0]);
        assert forall|i: int| 0 <= i < block@.len() implies #[trigger] block@[i] < 113 by {
            assert(block@[i] < 113 || block@[i] == pre[i]);
        }
    }
    block
}

/// The `k`-th bit of the dot stream of a masked block: two mask bits, then the
/// nine-bit pattern of each codeword, most significant bit first.
pub open spec fn dot_bit(block: Seq<u8>, k: int) -> bool {
    if k < 2 {
        (block[0] >> ((1 - k) as u8)) & 1 == 1
    } else {
        let q = (k - 2) / 9;
        let r = (k - 2) % 9;
        (DC_DOT_PATTERNS@[block[1 + q] as int] >> ((8 - r) as u16)) & 1 == 1
    }
}

/// Convert the masked codeword block into the dot bit stream.
pub fn make_dotstream(block: &[u8]) -> (bits: Vec<bool>)
    requires
        block@.len() >= 1,
        block@.len() <= 0x0fff_ffff,
        all_codewords(block@),
    ensures
        bits@.len() == 2 + 9 * (block@.len() - 1),
        forall|k: int| 0 <= k < bits@.len() ==> #[trigger] bits@[k] == dot_bit(block@, k),
{
    let mut bits: Vec<bool> = Vec::new();
    bits.push((block[0] >> 1u8) & 1 == 1);
    bits.push((block[0] >> 0u8) & 1 == 1);
    let pats = DC_DOT_PATTERNS;
    let mut q: usize = 1;
    while q < block.len()
        invariant
            1 <= q <= block@.len(),
            block@.len() <= 0x0fff_ffff,
            all_codewords(block@),
            pats@ == DC_DOT_PATTERNS@,
            bits@.len() == 2 + 9 * (q - 1),
            forall|k: int| 0 <= k < bits@.len() ==> #[trigger] bits@[k] == dot_bit(block@, k),
        decreases block@.len() - q,
    {
        let pat = pats[block[q] as usize];
        let mut i: usize = 0;
        while i < 9
            invariant
                i <= 9,
                1 <= q < block@.len(),
                pat == DC_DOT_PATTERNS@[block@[q as int] as int],
                bits@.len() == 2 + 9 * (q - 1) + i,
                forall|k: int| 0 <= k < bits@.len() ==> #[trigger] bits@[k] == dot_bit(block@, k),
            decreases 9 - i,
        {
            let sh: u16 = (8 - i) as u16;
            bits.push((pat >> sh) & 1 == 1);
            proof {
                let k = 2 + 9 * (q - 1) + i;
                assert((k - 2) / 9 == q - 1 && (k - 2) % 9 == i) by (nonlinear_arith)
                    requires
                        k == 2 + 9 * (q - 1) + i,
                        i < 9,
                        q >= 1,
                ;
                assert(bits@[k] == dot_bit(block@, k));
            }
            i = i + 1;
        }
        q = q + 1;
    }
    bits
}

/// `grid` is `stream` folded onto a `w × h` checkerboard: data cells take successive
/// stream bits, the six reserved corner dots take the next six, every other cell is
/// light.
pub open spec fn folded(grid: Seq<bool>, stream: Seq<bool>, w: int, h: int) -> bool {
    &&& grid.len() == w * h
    &&& forall|t: int| 0 <= t < w * h && !corner_slots(w, h, w * h).contains(visit_index(w, h, t))
        ==> grid[#[trigger] visit_index(w, h, t)] == (if data_cell(w, h, t) {
            sget(stream, data_rank(w, h, t) as int)
        } else {
            false
        })
    &&& forall|c: int| 0 <= c < 6 ==> grid[#[trigger] corner_slots(w, h, w * h)[c]] == sget(
        stream,
        data_rank(w, h, w * h) + c,
    )
}

/// Fold the padded dot stream onto the checkerboard, returning the row-major dark
/// module grid: data cells take successive stream bits, the six reserved corner
/// dots take the last six, everything else stays light.
pub fn fold_dotstream(stream: &[bool], width: usize, height: usize) -> (grid: Vec<bool>)
    requires
        5 <= width <= 200,
        5 <= height <= 200,
    ensures
        folded(grid@, stream@, width as int, height as int),
{
    let ghost w = width as int;
    let ghost h = height as int;
    assert(width * height <= 40000 && width * height >= 5 * width && width * height >= 5 * height) by (nonlinear_arith)
        requires
            5 <= width <= 200,
            5 <= height <= 200,
    ;
    let wh = width * height;
    let mut grid: Vec<bool> = Vec::new();
    let mut z: usize = 0;
    while z < wh
        invariant
            z <= wh,
            grid@.len() == z,
            forall|i: int| 0 <= i < z ==> !#[trigger] grid@[i],
        decreases wh - z,
    {
        grid.push(false);
        z = z + 1;
    }
    let mut pos: usize = 0;
    let mut t: usize = 0;
    proof {
        assert forall|t2: int| 0 <= t2 < wh implies !grid@[#[trigger] visit_index(w, h, t2)] by {
            lemma_visit_index(w, h, t2, t2);
        }
    }
    while t < wh
        invariant
            w == width,
            h == height,
            wh == w * h,
            wh <= 40000,
            5 <= width <= 200,
            5 <= height <= 200,
            t <= wh,
            grid@.len() == wh,
            pos == data_rank(w, h, t as int),
            pos <= t,
            forall|t2: int| 0 <= t2 < t ==> grid@[#[trigger] visit_index(w, h, t2)] == (if data_cell(w, h, t2) {
                sget(stream@, data_rank(w, h, t2) as int)
            } else {
                false
            }),
            forall|t2: int| t <= t2 < wh ==> !grid@[#[trigger] visit_index(w, h, t2)],
        decreases wh - t,
    {
        let odd = height % 2 == 1;
        let (col, row) = if odd {
            (t % width, t / width)
        } else {
            (t / height, t % height)
        };
        proof {
            lemma_visit_index(w, h, t as int, t as int);
            if odd {
                assert(row < height) by (nonlinear_arith)
                    requires
                        row == t / width,
                        t < width * height,
                        width >= 1,
                ;
            } else {
                assert(col < width) by (nonlinear_arith)
                    requires
                        col == t / height,
                        t < width * height,
                        height >= 1,
                ;
            }
        }
        if (col + row) % 2 == 0 && !is_corner(col, row, width, height) {
            let idx = if odd {
                (height - row - 1) * width + col
            } else {
                row * width + col
            };
            let v = if pos < stream.len() {
                stream[pos]
            } else {
                false
            };
            let ghost before = grid@;
            assert(idx == visit_index(w, h, t as int));
            grid.set(idx, v);
            proof {
                assert forall|t2: int| 0 <= t2 < wh && t2 != t implies grid@[#[trigger] visit_index(w, h, t2)]
                    == before[visit_index(w, h, t2)] by {
                    lemma_visit_index(w, h, t as int, t2);
                    lemma_visit_index(w, h, t2, t2);
                }
            }
            pos = pos + 1;
        }
        t = t + 1;
    }
    let slots: [usize; 6] = if height % 2 == 1 {
        [width - 2, wh - 2, width * 2 - 1, wh - width - 1, 0, wh - width]
    } else {
        [wh - width - 1, wh - 2 * width, wh - 2, wh - width + 1, width - 1, 0]
    };
    let ghost cs = corner_slots(w, h, wh as int);
    assert(forall|c: int| 0 <= c < 6 ==> slots@[c] == #[trigger] cs[c]);
    let ghost after_data = grid@;
    let mut c: usize = 0;
    while c < 6
        invariant
            c <= 6,
            grid@.len() == wh,
            cs == corner_slots(w, h, wh as int),
            forall|i: int| 0 <= i < 6 ==> slots@[i] == #[trigger] cs[i],
            forall|i: int, j: int| 0 <= i < j < 6 ==> #[trigger] cs[i] != #[trigger] cs[j],
            forall|i: int| 0 <= i < 6 ==> 0 <= #[trigger] cs[i] < wh,
            pos == data_rank(w, h, wh as int) + c,
            data_rank(w, h, wh as int) <= wh,
            wh <= 40000,
            forall|i: int| 0 <= i < c ==> grid@[#[trigger] cs[i]] == sget(stream@, data_rank(w, h, wh as int) + i),
            forall|k: int| 0 <= k < wh && !cs.contains(k) ==> grid@[k] == after_data[k],
        decreases 6 - c,
    {
        let v = if pos < stream.len() {
            stream[pos]
        } else {
            false
        };
        grid.set(slots[c], v);
        pos = pos + 1;
        c = c + 1;
    }
    proof {
        assert forall|t2: int| 0 <= t2 < wh && !cs.contains(visit_index(w, h, t2)) implies grid@[#[trigger] visit_index(w, h, t2)]
            == (if data_cell(w, h, t2) { sget(stream@, data_rank(w, h, t2) as int) } else { false }) by {
            lemma_visit_index(w, h, t2, t2);
        }
    }
    grid
}

/// The dot stream of a masked block, padded with lit dots to `n_dots`.
pub open spec fn padded_stream(block: Seq<u8>, n_dots: int) -> Seq<bool> {
    let len = 2 + 9 * (block.len() - 1);
    Seq::new(
        (if len < n_dots { n_dots } else { len }) as nat,
        |k: int| if k < len { dot_bit(block, k) } else { true },
    )
}

/// `grid` is the rendering of `data` at size `w × h` under mask `mask`.
pub open spec fn renders(grid: Seq<bool>, data: Seq<u8>, w: int, h: int, mask: int) -> bool {
    exists|block: Seq<u8>| #[trigger] masked_block_ok(block, data, mask) && folded(
        grid,
        padded_stream(block, (w * h) / 2),
        w,
        h,
    )
}

/// Render padded data codewords, geometry and mask into the dark-module grid.
pub fn render_grid(data: &[u8], width: usize, height: usize, mask: u8) -> (grid: Vec<bool>)
    requires
        mask < 4,
        data@.len() <= 40000,
        all_codewords(data@),
        5 <= width <= 200,
        5 <= height <= 200,
    ensures
        renders(grid@, data@, width as int, height as int, mask as int),
        grid@.len() == width * height,
{
    let block = build_masked_block(data, mask);
    let mut stream = make_dotstream(block.as_slice());
    assert((height * width) / 2 <= 20000) by (nonlinear_arith)
        requires
            width <= 200,
            height <= 200,
    ;
    let n_dots = (height * width) / 2;
    let ghost base = stream@;
    let ghost len = base.len();
    while stream.len() < n_dots
        invariant
            len == 2 + 9 * (block@.len() - 1),
            base.len() == len,
            len <= stream@.len(),
            stream@.len() <= (if len < n_dots { n_dots as int } else { len as int }),
            forall|k: int| 0 <= k < len ==> #[trigger] stream@[k] == base[k],
            forall|k: int| len <= k < stream@.len() ==> #[trigger] stream@[k],
            forall|k: int| 0 <= k < len ==> #[trigger] base[k] == dot_bit(block@, k),
        decreases n_dots - stream@.len(),
    {
        stream.push(true);
    }
    proof {
        assert(height * width == width * height) by (nonlinear_arith);
        assert(stream@ =~= padded_stream(block@, (width * height) / 2));
    }
    let grid = fold_dotstream(stream.as_slice(), width, height);
    proof {
        assert(masked_block_ok(block@, data@, mask as int));
    }
    grid
}

/// Each pad codeword takes at least nine spare dots.
pub proof fn lemma_pad_count_bound(padding_dots: int, data_length: int)
    ensures
        pad_count(padding_dots, data_length) <= (if padding_dots >= 0 { padding_dots / 9 } else { 0 }),
    decreases padding_dots,
{
    if padding_dots >= 9 {
        lemma_pad_count_bound(padding_dots - 9, data_length + 1);
        if padding_dots >= 18 {
            lemma_pad_count_bound(padding_dots - 18, data_length + 1);
        }
    }
}

/// Pick the best of masks 0–3 for the padded data by [`score_array`]; on equal
/// scores the higher mask wins.
pub fn select_mask(data: &[u8], width: usize, height: usize) -> (m: u8)
    requires
        data@.len() <= 40000,
        all_codewords(data@),
        5 <= width <= 200,
        5 <= height <= 200,
    ensures
        m < 4,
{
    let mut best_mask: u8 = 0;
    let mut high: i64 = i64::MIN;
    let mut m: u8 = 0;
    while m < 4
        invariant
            m <= 4,
            best_mask < 4,
            data@.len() <= 40000,
            all_codewords(data@),
            5 <= width <= 200,
            5 <= height <= 200,
        decreases 4 - m,
    {
        let grid = render_grid(data, width, height, m);
        let score = score_array(grid.as_slice(), height, width);
        if m == 0 || score >= high {
            high = score;
            best_mask = m;
        }
        m = m + 1;
    }
    best_mask
}

/// Why a [`DotCodeMeta`] cannot be rendered, if it cannot.
pub open spec fn meta_error(meta: DotCodeMeta) -> Option<Error> {
    if meta.codewords@.len() == 0 {
        Some(Error::InvalidParameter)
    } else if meta.mask > 3 {
        Some(Error::InvalidParameter)
    } else if !(5 <= meta.width <= 200) || !(5 <= meta.height <= 200) {
        Some(Error::InvalidParameter)
    } else if (meta.width + meta.height) % 2 != 1 {
        Some(Error::InvalidParameter)
    } else if !all_codewords(meta.codewords@) {
        Some(Error::InvalidParameter)
    } else if meta.codewords@.len() > 40000 {
        Some(Error::Capacity)
    } else {
        None
    }
}

/// `r` is how `meta` renders: its error, or the dot matrix of its codewords.
pub open spec fn meta_rendering(meta: DotCodeMeta, r: Result<Encoding, Error>) -> bool {
    match r {
        Ok(enc) => meta_error(meta) is None && (enc matches Encoding::Matrix(m) && {
            &&& m.wf()
            &&& m.width == meta.width
            &&& m.height == meta.height
            &&& m.quiet_zone == 3
            &&& renders(m.bits@, meta.codewords@, meta.width as int, meta.height as int, meta.mask as int)
        }),
        Err(e) => meta_error(meta) == Some(e),
    }
}

/// Render meta into a [`BitMatrix`] (quiet zone 3).
pub fn render_meta(meta: &DotCodeMeta) -> (r: Result<Encoding, Error>)
    ensures
        meta_rendering(*meta, r),
{
    if meta.codewords.len() == 0 {
        return Err(Error::InvalidParameter);
    }
    if meta.mask > 3 {
        return Err(Error::InvalidParameter);
    }
    if !(5 <= meta.width && meta.width <= 200) || !(5 <= meta.height && meta.height <= 200) {
        return Err(Error::InvalidParameter);
    }
    if (meta.width + meta.height) % 2 != 1 {
        return Err(Error::InvalidParameter);
    }
    let mut i: usize = 0;
    while i < meta.codewords.len()
        invariant
            i <= meta.codewords@.len(),
            forall|k: int| 0 <= k < i ==> #[trigger] meta.codewords@[k] < 113,
        decreases meta.codewords@.len() - i,
    {
        if meta.codewords[i] >= 113 {
            return Err(Error::InvalidParameter);
        }
        i = i + 1;
    }
    if meta.codewords.len() > 40000 {
        return Err(Error::Capacity);
    }
    let grid = render_grid(meta.codewords.as_slice(), meta.width, meta.height, meta.mask);
    Ok(Encoding::Matrix(BitMatrix { width: meta.width, height: meta.height, quiet_zone: 3, bits: grid }))
}

/// DotCode encoder.
#[derive(Debug, Default, Clone, Copy)]
pub struct DotCodeEncoder;

impl DotCodeEncoder {
    /// A new encoder.
    pub fn new() -> (e: Self) {
        DotCodeEncoder
    }

    /// First stage of a build: validate and run the data encodation. Returns the
    /// codewords and whether they end in binary mode.
    pub fn build_codewords(&self, data: &[u8], eci: u32, gs1: bool, reader_init: bool) -> (r: Result<(Vec<u8>, bool), Error>)
        ensures
            data@.len() == 0 ==> r == Err::<(Vec<u8>, bool), Error>(Error::InvalidData),
            data@.len() > 0 && eci > 811799 ==> r == Err::<(Vec<u8>, bool), Error>(Error::InvalidParameter),
            data@.len() > 0 && eci <= 811799 ==> r is Ok,
            r matches Ok((cw, _)) ==> data@.len() > 0 && eci <= 811799 && cw@.len() > 0 && all_codewords(cw@),
            r matches Err(e) ==> e == Error::InvalidData || e == Error::InvalidParameter,
    {
        if data.len() == 0 {
            return Err(Error::InvalidData);
        }
        if eci > 811799 {
            return Err(Error::InvalidParameter);
        }
        let (codewords, binary_finish) = encode_message(data, eci, gs1, reader_init);
        if codewords.len() == 0 {
            return Err(Error::InvalidData);
        }
        Ok((codewords, binary_finish))
    }

    /// Second stage of a build: size (from `width`, or else from `est`), pad, pick a
    /// mask, and assemble the symbol.
    pub fn build_sized(
        &self,
        data: &[u8],
        eci: u32,
        codewords: Vec<u8>,
        binary_finish: bool,
        width: Option<usize>,
        est: SizeEstimate,
    ) -> (r: Result<Symbol, Error>)
        requires
            all_codewords(codewords@),
        ensures
            r matches Ok(sym) ==> {
                &&& sym.symbology == Symbology::DotCode
                &&& sym.meta matches SymbolMeta::DotCode(meta) && {
                    &&& size_spec(codewords@.len() as int, width, est) == Ok::<(int, int), Error>((meta.width as int, meta.height as int))
                    &&& meta.mask < 4
                    &&& meta.codewords@ == codewords@ + pads(
                        pad_count((meta.width * meta.height) / 2 - min_dots_spec(codewords@.len() as int), codewords@.len() as int),
                        binary_finish,
                    )
                }
                &&& sym.segments@.len() == (if eci > 0 { 2int } else { 1int })
                &&& sym.segments@.last().mode == Mode::Byte
                &&& sym.segments@.last().data@ == data@
                &&& eci > 0 ==> sym.segments@[0].mode == Mode::Eci(eci)
            },
            width matches Some(w) && !(5 <= w <= 200) ==> r == Err::<Symbol, Error>(Error::InvalidParameter),
            size_spec(codewords@.len() as int, width, est) matches Err(e) ==> (codewords@.len() <= 20000 ==> r
                == Err::<Symbol, Error>(e)),
            r matches Err(e) ==> e == Error::InvalidParameter || e == Error::Capacity,
            codewords@.len() <= 20000 && (width is Some || (est.width <= 0x7fff && est.height <= 0x7fff))
                && size_spec(codewords@.len() as int, width, est) is Ok ==> r is Ok,
    {
        if let Some(w) = width {
            if !(5 <= w && w <= 200) {
                return Err(Error::InvalidParameter);
            }
        }
        // Anything longer needs more than 200 × 200 dots.
        if codewords.len() > 20000 {
            return Err(Error::Capacity);
        }
        if est.width > 0x7fff || est.height > 0x7fff {
            if width.is_none() {
                return Err(Error::Capacity);
            }
        }
        let est2 = if est.width > 0x7fff || est.height > 0x7fff {
            SizeEstimate { height: 0, width: 0, widen: false }
        } else {
            est
        };
        let (w, h) = match select_size(codewords.len(), width, est2) {
            Ok(sz) => sz,
            Err(e) => {
                return Err(e);
            },
        };
        let ghost cw = codewords@;
        assert(w * h <= 40000 && (w * h) / 2 <= 20000) by (nonlinear_arith)
            requires
                5 <= w <= 200,
                5 <= h <= 200,
        ;
        let padded = add_padding(codewords, w, h, binary_finish);
        proof {
            lemma_pad_count_bound((w * h) / 2 - min_dots_spec(cw.len() as int), cw.len() as int);
            assert forall|k: int| 0 <= k < padded@.len() implies #[trigger] padded@[k] < 113 by {
                if k < cw.len() {
                    assert(padded@[k] == cw[k]);
                }
            }
        }
        let mask = select_mask(padded.as_slice(), w, h);
        let meta = DotCodeMeta { width: w, height: h, mask, codewords: padded };
        let mut segments: Vec<Segment> = Vec::new();
        if eci > 0 {
            segments.push(Segment::eci(eci));
        }
        segments.push(Segment::byte(copy_bytes(data)));
        Ok(Symbol::new(Symbology::DotCode, segments, SymbolMeta::DotCode(meta)))
    }

    /// Build a DotCode symbol from raw bytes with a user-chosen width (5–200).
    pub fn build_bytes_width(&self, data: &[u8], width: usize) -> (r: Result<Symbol, Error>)
        ensures
            data@.len() == 0 ==> r == Err::<Symbol, Error>(Error::InvalidData),
            data@.len() > 0 && !(5 <= width <= 200) ==> r == Err::<Symbol, Error>(Error::InvalidParameter),
            r matches Ok(sym) ==> sym.symbology == Symbology::DotCode && sym.segments@.len() == 1
                && sym.segments@[0].data@ == data@ && (sym.meta matches SymbolMeta::DotCode(meta) && meta.width == width),
    {
        let (cw, bf) = match self.build_codewords(data, 0, false, false) {
            Ok(x) => x,
            Err(e) => {
                return Err(e);
            },
        };
        self.build_sized(data, 0, cw, bf, Some(width), SizeEstimate { height: 0, width: 0, widen: false })
    }

    /// Encode a DotCode symbol from its meta.
    pub fn encode(&self, symbol: &Symbol) -> (r: Result<Encoding, Error>)
        ensures
            symbol.symbology != Symbology::DotCode ==> r == Err::<Encoding, Error>(Error::InvalidParameter),
            symbol.symbology == Symbology::DotCode && !(symbol.meta is DotCode) ==> r == Err::<Encoding, Error>(
                Error::InvalidParameter),
            symbol.meta matches SymbolMeta::DotCode(meta) ==> (symbol.symbology == Symbology::DotCode
                ==> meta_rendering(meta, r)),
    {
        if symbol.symbology != Symbology::DotCode {
            return Err(Error::InvalidParameter);
        }
        match &symbol.meta {
            SymbolMeta::DotCode(m) => render_meta(m),
            _ => Err(Error::InvalidParameter),
        }
    }
}

} // verus!
