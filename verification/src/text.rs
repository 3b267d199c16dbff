//! Decimal text: the payload form of numeric symbologies.
use vstd::prelude::*;
use crate::poly::{horner_int, peval, lemma_horner_int_rev, lemma_peval_cons};

verus! {

/// ASCII digit values of `s`.
pub open spec fn digit_values(s: Seq<u8>) -> Seq<int> {
    s.map_values(|c: u8| c as int - 48)
}

/// Every byte is an ASCII digit.
pub open spec fn all_digits(s: Seq<u8>) -> bool {
    forall|i: int| 0 <= i < s.len() ==> 48 <= #[trigger] s[i] <= 57
}

/// The value of a decimal digit string.
pub open spec fn dec_value(s: Seq<u8>) -> int {
    horner_int(digit_values(s), 10)
}

/// What `str::parse::<u32>` accepts: an optional `+`, then at least one digit,
/// with a value that fits in `u32`.
pub open spec fn parses_u32(s: Seq<u8>) -> bool {
    let d = if s.len() > 0 && s[0] == 43 { s.drop_first() } else { s };
    d.len() > 0 && all_digits(d) && dec_value(d) <= u32::MAX
}

/// The value `str::parse::<u32>` yields for `s` (meaningful when `parses_u32(s)`).
pub open spec fn parsed_u32(s: Seq<u8>) -> int {
    let d = if s.len() > 0 && s[0] == 43 { s.drop_first() } else { s };
    dec_value(d)
}

/// Decimal digits of `v` without leading zeros (`"0"` for zero), least
/// significant first.
pub open spec fn dec_digits_lsf(v: nat) -> Seq<u8>
    decreases v,
{
    if v < 10 {
        seq![(v + 48) as u8]
    } else {
        seq![((v % 10) + 48) as u8] + dec_digits_lsf(v / 10)
    }
}

/// The decimal representation `u32::to_string` produces.
pub open spec fn dec_string(v: nat) -> Seq<u8> {
    dec_digits_lsf(v).reverse()
}

/// The digits of `v` are digits, and read back to `v`.
pub proof fn lemma_dec_lsf(v: nat)
    ensures
        all_digits(dec_digits_lsf(v)),
        peval(digit_values(dec_digits_lsf(v)), 10) == v,
        dec_digits_lsf(v).len() >= 1,
    decreases v,
{
    let s = dec_digits_lsf(v);
    if v < 10 {
        assert(digit_values(s) =~= seq![v as int]);
        assert(seq![v as int].drop_last() =~= Seq::<int>::empty());
        assert(peval(Seq::<int>::empty(), 10) == 0);
        assert(crate::poly::xpow(10, 0) == 1);
        assert(peval(seq![v as int], 10) == 0 + v * 1);
    } else {
        lemma_dec_lsf(v / 10);
        let t = dec_digits_lsf(v / 10);
        assert(digit_values(s) =~= seq![(v % 10) as int] + digit_values(t));
        lemma_peval_cons((v % 10) as int, digit_values(t), 10);
        assert(v == (v % 10) + 10 * (v / 10));
        assert forall|i: int| 0 <= i < s.len() implies 48 <= #[trigger] s[i] <= 57 by {
            if i > 0 {
                assert(s[i] == t[i - 1]);
            }
        }
    }
}

/// The decimal string of `v` parses back to `v`.
pub proof fn lemma_dec_string(v: nat)
    ensures
        all_digits(dec_string(v)),
        dec_value(dec_string(v)) == v,
        dec_string(v).len() >= 1,
        dec_string(v)[0] != 43,
{
    lemma_dec_lsf(v);
    let s = dec_digits_lsf(v);
    assert(digit_values(s.reverse()) =~= digit_values(s).reverse());
    lemma_horner_int_rev(digit_values(s), 10);
    assert(48 <= s.reverse()[0] <= 57);
}

/// The decimal representation of `v` (`u32::to_string`).
pub fn u32_to_decimal(v: u32) -> (out: Vec<u8>)
    ensures
        out@ == dec_string(v as nat),
{
    let mut lsf: Vec<u8> = Vec::new();
    let mut n = v;
    while n >= 10
        invariant
            lsf@ + dec_digits_lsf(n as nat) == dec_digits_lsf(v as nat),
        decreases n,
    {
        let d = (n % 10) as u8 + 48u8;
        lsf.push(d);
        proof {
            assert(dec_digits_lsf(n as nat) =~= seq![d] + dec_digits_lsf((n / 10) as nat));
        }
        n = n / 10;
        proof {
            assert(lsf@ + dec_digits_lsf(n as nat) =~= dec_digits_lsf(v as nat));
        }
    }
    let d = n as u8 + 48u8;
    lsf.push(d);
    proof {
        assert(dec_digits_lsf(n as nat) =~= seq![d]);
        assert(lsf@ =~= dec_digits_lsf(v as nat));
    }
    let mut out: Vec<u8> = Vec::new();
    let mut i: usize = lsf.len();
    while i > 0
        invariant
            i <= lsf@.len(),
            out@ == lsf@.subrange(i as int, lsf@.len() as int).reverse(),
        decreases i,
    {
        i = i - 1;
        out.push(lsf[i]);
        proof {
            assert(out@ =~= lsf@.subrange(i as int, lsf@.len() as int).reverse());
        }
    }
    proof {
        assert(lsf@.subrange(0, lsf@.len() as int) =~= lsf@);
    }
    out
}

/// `str::parse::<u32>` on ASCII bytes: an optional `+`, then decimal digits.
pub fn parse_u32(s: &[u8]) -> (r: Option<u32>)
    ensures
        r is Some <==> parses_u32(s@),
        r matches Some(v) ==> v == parsed_u32(s@),
{
    let mut i: usize = 0;
    if s.len() > 0 && s[0] == 43u8 {
        i = 1;
    }
    let ghost d = if s@.len() > 0 && s@[0] == 43 { s@.drop_first() } else { s@ };
    if i == s.len() {
        proof {
            assert(d.len() == 0);
        }
        return None;
    }
    let mut acc: u64 = 0;
    let start = i;
    while i < s.len()
        invariant
            start <= i <= s@.len(),
            start == s@.len() - d.len(),
            d == s@.subrange(start as int, s@.len() as int),
            d == (if s@.len() > 0 && s@[0] == 43 { s@.drop_first() } else { s@ }),
            all_digits(d.take(i - start)),
            acc == dec_value(d.take(i - start)),
            acc <= u32::MAX,
        decreases s@.len() - i,
    {
        let c = s[i];
        if c < 48u8 || c > 57u8 {
            proof {
                assert(d[i - start] == c);
                assert(!all_digits(d));
            }
            return None;
        }
        let next = acc * 10 + (c - 48u8) as u64;
        proof {
            let t = d.take(i - start + 1);
            assert(t.drop_last() =~= d.take(i - start));
            assert(digit_values(t).drop_last() =~= digit_values(d.take(i - start)));
            assert(t.last() == c);
            assert forall|j: int| 0 <= j < t.len() implies 48 <= #[trigger] t[j] <= 57 by {
                if j < t.len() - 1 {
                    assert(t[j] == d.take(i - start)[j]);
                }
            }
        }
        if next > 0xffff_ffff {
            proof {
                // every longer prefix is at least as large
                if all_digits(d) {
                    lemma_dec_prefix_grows(d, (i - start + 1) as nat);
                }
            }
            return None;
        }
        acc = next;
        i = i + 1;
    }
    proof {
        assert(d.take(d.len() as int) =~= d);
    }
    Some(acc as u32)
}

/// Extending a digit string never decreases its value.
proof fn lemma_dec_prefix_grows(d: Seq<u8>, k: nat)
    requires
        k <= d.len(),
        all_digits(d),
    ensures
        dec_value(d) >= dec_value(d.take(k as int)),
        dec_value(d.take(k as int)) >= 0,
    decreases d.len() - k,
{
    lemma_dec_nonneg(d.take(k as int));
    if k < d.len() {
        lemma_dec_prefix_grows(d, k + 1);
        let t = d.take((k + 1) as int);
        assert(t.drop_last() =~= d.take(k as int));
        assert(digit_values(t).drop_last() =~= digit_values(d.take(k as int)));
        let a = dec_value(d.take(k as int));
        assert(48 <= d[k as int] <= 57);
        assert(a * 10 >= a) by (nonlinear_arith) requires a >= 0;
    } else {
        assert(d.take(k as int) =~= d);
    }
}

/// A digit string has a non-negative value.
proof fn lemma_dec_nonneg(d: Seq<u8>)
    requires
        all_digits(d),
    ensures
        dec_value(d) >= 0,
    decreases d.len(),
{
    if d.len() > 0 {
        assert(digit_values(d).drop_last() =~= digit_values(d.drop_last()));
        lemma_dec_nonneg(d.drop_last());
        let a = dec_value(d.drop_last());
        assert(48 <= d[d.len() - 1] <= 57);
        assert(a * 10 >= 0) by (nonlinear_arith) requires a >= 0;
    }
}

} // verus!
