//! Most-significant-bit-first bit sequences: writing a number's low bits and
//! reading them back.
use vstd::prelude::*;
use crate::error::Error;

verus! {

/// `2^n`.
pub open spec fn pw2(n: nat) -> nat
    decreases n,
{
    if n == 0 {
        1
    } else {
        2 * pw2((n - 1) as nat)
    }
}

/// The `len` low bits of `v`, most significant first.
pub open spec fn msb_bits(v: int, len: nat) -> Seq<bool> {
    Seq::new(len, |i: int| (v / pw2((len - 1 - i) as nat) as int) % 2 == 1)
}

/// The number a bit sequence spells, most significant bit first.
pub open spec fn bval(s: Seq<bool>) -> nat
    decreases s.len(),
{
    if s.len() == 0 {
        0
    } else {
        2 * bval(s.drop_last()) + (if s.last() { 1nat } else { 0nat })
    }
}

/// `bits` holds `x` starting at position `pos`.
pub open spec fn at(bits: Seq<bool>, pos: int, x: Seq<bool>) -> bool {
    &&& 0 <= pos
    &&& pos + x.len() <= bits.len()
    &&& bits.subrange(pos, pos + x.len()) == x
}

/// The `len`-bit number at `pos`, or `None` where the sequence ends too early.
pub open spec fn rd(bits: Seq<bool>, pos: int, len: nat) -> Option<int> {
    if 0 <= pos && pos + len <= bits.len() {
        Some(bval(bits.subrange(pos, pos + len)) as int)
    } else {
        None
    }
}

/// `2^n` is positive and doubles with each step.
pub proof fn lemma_pw2_pos(n: nat)
    ensures
        pw2(n) >= 1,
    decreases n,
{
    if n > 0 {
        lemma_pw2_pos((n - 1) as nat);
    }
}

/// `2^n` grows with `n`.
pub proof fn lemma_pw2_mono(n: nat, m: nat)
    requires
        n <= m,
    ensures
        pw2(n) <= pw2(m),
    decreases m - n,
{
    if n < m {
        lemma_pw2_mono(n, (m - 1) as nat);
        lemma_pw2_pos((m - 1) as nat);
    }
}

/// A value spelled by `s` is below `2^|s|`.
pub proof fn lemma_bval_bound(s: Seq<bool>)
    ensures
        bval(s) < pw2(s.len()),
    decreases s.len(),
{
    if s.len() > 0 {
        lemma_bval_bound(s.drop_last());
    }
}

/// Reading back the low bits of a number gives the number.
pub proof fn lemma_bval_msb(v: int, len: nat)
    requires
        0 <= v < pw2(len),
    ensures
        bval(msb_bits(v, len)) == v,
    decreases len,
{
    if len > 0 {
        let s = msb_bits(v, len);
        let h = v / 2;
        assert(0 <= h < pw2((len - 1) as nat));
        assert forall|i: int| 0 <= i < len - 1 implies #[trigger] s.drop_last()[i] == msb_bits(
            h,
            (len - 1) as nat,
        )[i] by {
            let m = (len - 2 - i) as nat;
            lemma_pw2_pos(m);
            vstd::arithmetic::div_mod::lemma_div_denominator(v, 2, pw2(m) as int);
            assert(pw2((len - 1 - i) as nat) == 2 * pw2(m));
        }
        assert(s.drop_last() =~= msb_bits(h, (len - 1) as nat));
        lemma_bval_msb(h, (len - 1) as nat);
        assert(pw2(0) == 1);
        assert(v / 1 == v);
        assert(s.last() == (v % 2 == 1));
    }
}

/// Splitting a placed concatenation.
pub proof fn lemma_at_concat(bits: Seq<bool>, pos: int, x: Seq<bool>, y: Seq<bool>)
    ensures
        at(bits, pos, x + y) <==> (at(bits, pos, x) && at(bits, pos + x.len(), y)),
{
    if at(bits, pos, x + y) {
        let b = bits.subrange(pos, pos + x.len() + y.len());
        assert(b == x + y);
        assert forall|i: int| 0 <= i < x.len() implies #[trigger] bits.subrange(
            pos,
            pos + x.len(),
        )[i] == x[i] by {
            assert(b[i] == (x + y)[i]);
        }
        assert(bits.subrange(pos, pos + x.len()) =~= x);
        assert forall|i: int| 0 <= i < y.len() implies #[trigger] bits.subrange(
            pos + x.len(),
            pos + x.len() + y.len(),
        )[i] == y[i] by {
            assert(b[i + x.len()] == (x + y)[i + x.len()]);
        }
        assert(bits.subrange(pos + x.len(), pos + x.len() + y.len()) =~= y);
    }
    if at(bits, pos, x) && at(bits, pos + x.len(), y) {
        assert forall|i: int| 0 <= i < x.len() + y.len() implies #[trigger] bits.subrange(
            pos,
            pos + x.len() + y.len(),
        )[i] == (x + y)[i] by {
            if i < x.len() {
                assert(bits.subrange(pos, pos + x.len())[i] == x[i]);
            } else {
                assert(bits.subrange(pos + x.len(), pos + x.len() + y.len())[i - x.len()] == y[i
                    - x.len()]);
            }
        }
        assert(bits.subrange(pos, pos + (x + y).len()) =~= x + y);
    }
}

/// Where a number's low bits are placed, reading them gives the number.
pub proof fn lemma_rd_at(bits: Seq<bool>, pos: int, v: int, len: nat)
    requires
        at(bits, pos, msb_bits(v, len)),
        0 <= v < pw2(len),
    ensures
        rd(bits, pos, len) == Some(v),
{
    lemma_bval_msb(v, len);
}

/// Append the `len` low bits of `value`, most significant first.
pub fn append(bits: &mut Vec<bool>, value: u32, len: usize)
    requires
        len <= 16,
    ensures
        final(bits)@ == old(bits)@ + msb_bits(value as int, len as nat),
{
    let ghost start = old(bits)@;
    let mut k: usize = 0;
    while k < len
        invariant
            k <= len,
            len <= 16,
            bits@ == start + msb_bits(value as int, len as nat).subrange(0, k as int),
        decreases len - k,
    {
        let sh: u32 = (len - 1 - k) as u32;
        let bit = (value >> sh) & 1 == 1;
        proof {
            let m = (len - 1 - k) as nat;
            lemma_shift_is_div(value, sh);
            assert(sh as nat == m);
            assert((value >> sh) & 1 == (value >> sh) % 2) by (bit_vector);
            assert(bit == msb_bits(value as int, len as nat)[k as int]);
        }
        bits.push(bit);
        proof {
            assert(bits@ =~= start + msb_bits(value as int, len as nat).subrange(0, k + 1));
        }
        k = k + 1;
    }
    proof {
        assert(msb_bits(value as int, len as nat).subrange(0, len as int) =~= msb_bits(
            value as int,
            len as nat,
        ));
    }
}

/// A right shift by `sh < 16` divides by `2^sh`.
proof fn lemma_shift_is_div(value: u32, sh: u32)
    requires
        sh < 16,
    ensures
        pw2(sh as nat) <= 0x8000,
        value >> sh == value / (pw2(sh as nat) as u32),
    decreases sh,
{
    lemma_pw2_mono(sh as nat, 15);
    assert(pw2(15) == 0x8000) by {
        reveal_with_fuel(pw2, 16);
    }
    if sh == 0 {
        assert(value >> 0u32 == value) by (bit_vector);
        assert(pw2(0) == 1);
        assert(value / 1u32 == value);
    } else {
        lemma_shift_is_div(value, (sh - 1) as u32);
        let p = pw2((sh - 1) as nat);
        lemma_pw2_pos((sh - 1) as nat);
        let s1 = (sh - 1) as u32;
        assert(value >> sh == (value >> s1) / 2) by (bit_vector)
            requires
                s1 + 1 == sh,
                sh < 16,
        ;
        vstd::arithmetic::div_mod::lemma_div_denominator(value as int, p as int, 2);
        assert(p * 2 == pw2(sh as nat));
        assert((p as u32) as int == p);
        assert((pw2(sh as nat) as u32) as int == pw2(sh as nat));
        assert(value >> s1 == (value as int) / (p as int));
        assert(value >> sh == ((value as int) / (p as int)) / 2);
        assert(value >> sh == (value as int) / (pw2(sh as nat) as int));
    }
}

/// Read the `len`-bit number at `*pos` and move past it.
pub fn read(bits: &[bool], pos: &mut usize, len: usize) -> (r: Result<u32, Error>)
    requires
        len <= 16,
    ensures
        match rd(bits@, *old(pos) as int, len as nat) {
            Some(v) => r == Ok::<u32, Error>(v as u32) && *final(pos) == *old(pos) + len && v
                < pw2(len as nat),
            None => r == Err::<u32, Error>(Error::Undecodable),
        },
{
    let n = bits.len();
    if *pos > n || len > n - *pos {
        return Err(Error::Undecodable);
    }
    let p0 = *pos;
    let mut v: u32 = 0;
    let mut k: usize = 0;
    while k < len
        invariant
            n == bits@.len(),
            k <= len,
            len <= 16,
            p0 + len <= n,
            v == bval(bits@.subrange(p0 as int, p0 + k)),
            v < pw2(k as nat),
            pw2(k as nat) <= 0x10000,
        decreases len - k,
    {
        proof {
            assert(bits@.subrange(p0 as int, p0 + k + 1).drop_last() =~= bits@.subrange(
                p0 as int,
                p0 + k,
            ));
            lemma_pw2_mono((k + 1) as nat, 16);
            assert(pw2(16) == 0x10000) by {
                reveal_with_fuel(pw2, 17);
            }
        }
        v = v * 2 + (if bits[p0 + k] { 1u32 } else { 0u32 });
        k = k + 1;
    }
    *pos = p0 + len;
    Ok(v)
}

} // verus!
