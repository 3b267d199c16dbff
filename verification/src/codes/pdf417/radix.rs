//! Positional numbers held as digit vectors (most significant digit first), and
//! the conversions between base 10 and base 900 that Numeric compaction needs.
use vstd::prelude::*;
use vstd::arithmetic::div_mod::{lemma_div_decreases, lemma_fundamental_div_mod};

verus! {

/// The value of `s` read in base `b`, most significant digit first.
pub open spec fn val(s: Seq<u32>, b: nat) -> nat
    decreases s.len(),
{
    if s.len() == 0 {
        0
    } else {
        val(s.drop_last(), b) * b + s.last() as nat
    }
}

/// The empty numeral reads as zero.
pub proof fn lemma_val_empty(b: nat)
    ensures
        val(Seq::<u32>::empty(), b) == 0,
{
}

/// A one-digit numeral reads as its digit.
pub proof fn lemma_val_single(s: Seq<u32>, b: nat)
    requires
        s.len() == 1,
    ensures
        val(s, b) == s[0],
{
    assert(s.drop_last() =~= Seq::<u32>::empty());
    lemma_val_empty(b);
    assert(val(s.drop_last(), b) == 0);
    assert(0 * b == 0) by (nonlinear_arith);
}

/// The canonical base-`b` digits of `v`: no leading zero, and `[0]` for zero.
pub open spec fn to_base(v: nat, b: nat) -> Seq<u32>
    decreases v,
{
    if b < 2 || b > 900 || v < b {
        seq![v as u32]
    } else {
        proof {
            lemma_div_decreases(v as int, b as int);
        }
        to_base(v / b, b).push((v % b) as u32)
    }
}

/// Every digit of `s` is below `b`.
pub open spec fn digits_below(s: Seq<u32>, b: nat) -> bool {
    forall|j: int| 0 <= j < s.len() ==> #[trigger] s[j] < b
}

/// `s` is a canonical numeral: digits below `b`, at least one digit, and no
/// leading zero unless it is the single digit zero.
pub open spec fn canonical(s: Seq<u32>, b: nat) -> bool {
    &&& digits_below(s, b)
    &&& s.len() >= 1
    &&& (s.len() == 1 || s[0] != 0)
}

/// A numeral with a non-zero leading digit is at least one.
pub proof fn lemma_val_pos(s: Seq<u32>, b: nat)
    requires
        s.len() >= 1,
        s[0] != 0,
        b >= 1,
    ensures
        val(s, b) >= 1,
    decreases s.len(),
{
    if s.len() > 1 {
        lemma_val_pos(s.drop_last(), b);
        assert(val(s.drop_last(), b) * b >= 1) by (nonlinear_arith)
            requires
                val(s.drop_last(), b) >= 1,
                b >= 1,
        ;
    }
}

/// A canonical numeral is the canonical digits of its own value.
pub proof fn lemma_canonical_is_to_base(s: Seq<u32>, b: nat)
    requires
        2 <= b <= 900,
        canonical(s, b),
    ensures
        s == to_base(val(s, b), b),
    decreases s.len(),
{
    if s.len() == 1 {
        lemma_val_single(s, b);
        assert(s[0] < b);
        assert(to_base(val(s, b), b) =~= s);
    } else {
        let p = s.drop_last();
        let d = s.last();
        assert(p[0] == s[0]);
        assert(canonical(p, b));
        lemma_canonical_is_to_base(p, b);
        lemma_val_pos(p, b);
        let v = val(s, b);
        assert(v == val(p, b) * b + d);
        assert(d < b) by {
            assert(s[s.len() - 1] < b);
        }
        assert(v >= b) by (nonlinear_arith)
            requires
                v == val(p, b) * b + d,
                val(p, b) >= 1,
        ;
        lemma_fundamental_div_mod(v as int, b as int);
        assert(v / b == val(p, b) && v % b == d) by (nonlinear_arith)
            requires
                v == val(p, b) * b + d,
                d < b,
                b >= 2,
        ;
        assert(to_base(v, b) == to_base(v / b, b).push((v % b) as u32));
        assert(s =~= p.push(d));
    }
}

/// A leading zero does not change a numeral's value.
pub proof fn lemma_val_drop_zero(s: Seq<u32>, b: nat)
    requires
        s.len() >= 1,
        s[0] == 0,
    ensures
        val(s, b) == val(s.skip(1), b),
    decreases s.len(),
{
    if s.len() == 1 {
        assert(s.skip(1) =~= Seq::<u32>::empty());
        lemma_val_empty(b);
        lemma_val_single(s, b);
    } else {
        let p = s.drop_last();
        assert(p[0] == 0);
        lemma_val_drop_zero(p, b);
        let t = s.skip(1);
        assert(p.skip(1) =~= t.drop_last());
        assert(t.last() == s.last());
        assert(t.len() > 0);
        assert(val(t, b) == val(t.drop_last(), b) * b + t.last());
        assert(val(s, b) == val(p, b) * b + s.last());
    }
}

/// Any run of leading zeros leaves the value unchanged.
pub proof fn lemma_val_drop_zeros(s: Seq<u32>, b: nat, k: int)
    requires
        0 <= k <= s.len(),
        forall|j: int| 0 <= j < k ==> #[trigger] s[j] == 0,
    ensures
        val(s, b) == val(s.skip(k), b),
    decreases k,
{
    if k > 0 {
        assert(s[0] == 0);
        lemma_val_drop_zero(s, b);
        let t = s.skip(1);
        assert forall|j: int| 0 <= j < k - 1 implies #[trigger] t[j] == 0 by {
            assert(t[j] == s[j + 1]);
        }
        lemma_val_drop_zeros(t, b, k - 1);
        assert(t.skip(k - 1) =~= s.skip(k));
    } else {
        assert(s.skip(0) =~= s);
    }
}

/// Appending a digit: `val(s ++ [d]) == val(s) * b + d`.
pub proof fn lemma_val_push(s: Seq<u32>, d: u32, b: nat)
    ensures
        val(s.push(d), b) == val(s, b) * b + d,
{
    assert(s.push(d).drop_last() =~= s);
}

/// Base-10 digits (most significant first) to canonical base-900 digits.
pub fn decimal_to_base900(dec: Vec<u32>) -> (r: Vec<u32>)
    requires
        dec.len() >= 1,
        digits_below(dec@, 10),
    ensures
        r@ == to_base(val(dec@, 10), 900),
{
    let ghost v0 = val(dec@, 10);
    let mut cur = dec;
    let mut acc: Vec<u32> = Vec::new();
    loop
        invariant
            cur.len() >= 1,
            digits_below(cur@, 10),
            v0 == val(dec@, 10),
            to_base(v0, 900) == to_base(val(cur@, 10), 900) + acc@,
        decreases val(cur@, 10),
    {
        let mut rem: u32 = 0;
        let mut quotient: Vec<u32> = Vec::new();
        let mut j: usize = 0;
        while j < cur.len()
            invariant
                j <= cur.len(),
                digits_below(cur@, 10),
                rem < 900,
                quotient.len() == j,
                digits_below(quotient@, 10),
                val(cur@.take(j as int), 10) == 900 * val(quotient@, 10) + rem,
            decreases cur.len() - j,
        {
            let d = cur[j];
            assert(d < 10);
            let a = rem * 10 + d;
            proof {
                assert(cur@.take(j as int + 1) =~= cur@.take(j as int).push(d));
                lemma_val_push(cur@.take(j as int), d, 10);
                lemma_val_push(quotient@, a / 900, 10);
                lemma_fundamental_div_mod(a as int, 900);
            }
            quotient.push(a / 900);
            rem = a % 900;
            j = j + 1;
        }
        assert(cur@.take(cur.len() as int) =~= cur@);
        let ghost vc = val(cur@, 10);
        let ghost q = val(quotient@, 10);
        proof {
            lemma_fundamental_div_mod(vc as int, 900);
            assert(vc / 900 == q && vc % 900 == rem) by (nonlinear_arith)
                requires
                    vc == 900 * q + rem,
                    rem < 900,
            ;
        }
        let mut first: usize = 0;
        while first < quotient.len() && quotient[first] == 0
            invariant
                first <= quotient.len(),
                forall|k: int| 0 <= k < first ==> #[trigger] quotient@[k] == 0,
            decreases quotient.len() - first,
        {
            first = first + 1;
        }
        proof {
            lemma_val_drop_zeros(quotient@, 10, first as int);
        }
        let mut rest: Vec<u32> = Vec::new();
        let mut k: usize = first;
        while k < quotient.len()
            invariant
                first <= k <= quotient.len(),
                rest@ == quotient@.subrange(first as int, k as int),
            decreases quotient.len() - k,
        {
            rest.push(quotient[k]);
            k = k + 1;
        }
        assert(rest@ =~= quotient@.skip(first as int));
        let mut nacc: Vec<u32> = Vec::new();
        nacc.push(rem);
        let mut t: usize = 0;
        while t < acc.len()
            invariant
                t <= acc.len(),
                nacc@ == seq![rem].add(acc@.take(t as int)),
            decreases acc.len() - t,
        {
            nacc.push(acc[t]);
            t = t + 1;
            assert(seq![rem].add(acc@.take(t as int)) =~= seq![rem].add(acc@.take(t - 1)).push(acc@[t - 1]));
        }
        assert(acc@.take(acc.len() as int) =~= acc@);
        if rest.len() == 0 {
            assert(q == 0) by {
                assert(quotient@.skip(first as int) =~= Seq::<u32>::empty());
                lemma_val_empty(10);
            }
            assert(to_base(vc, 900) =~= seq![rem]);
            assert(to_base(v0, 900) =~= nacc@);
            assert(nacc@ == to_base(v0, 900));
            return nacc;
        }
        proof {
            assert(rest@[0] != 0);
            assert(digits_below(rest@, 10));
            lemma_val_pos(rest@, 10);
            assert(vc >= 900);
            assert(to_base(vc, 900) == to_base(q, 900).push(rem));
            assert(to_base(q, 900) + nacc@ =~= to_base(q, 900).push(rem) + acc@);
        }
        cur = rest;
        acc = nacc;
    }
}

/// `b` to the power `k`.
pub open spec fn pw(b: nat, k: nat) -> nat
    decreases k,
{
    if k == 0 {
        1
    } else {
        b * pw(b, (k - 1) as nat)
    }
}

/// Prepending a digit: `val([d] ++ t) == d * b^|t| + val(t)`.
pub proof fn lemma_val_prepend(t: Seq<u32>, d: u32, b: nat)
    ensures
        val(seq![d].add(t), b) == d * pw(b, t.len()) + val(t, b),
    decreases t.len(),
{
    let s = seq![d].add(t);
    if t.len() == 0 {
        assert(s =~= seq![d]);
        lemma_val_single(s, b);
        lemma_val_empty(b);
        assert(pw(b, 0) == 1);
        assert(d * 1 == d) by (nonlinear_arith);
    } else {
        let tp = t.drop_last();
        assert(s.drop_last() =~= seq![d].add(tp));
        lemma_val_prepend(tp, d, b);
        let k = tp.len();
        assert(pw(b, t.len()) == b * pw(b, k));
        assert(s.len() > 0);
        assert(s.last() == t.last());
        assert(val(s, b) == val(s.drop_last(), b) * b + s.last());
        assert(val(t, b) == val(tp, b) * b + t.last());
        assert((d * pw(b, k) + val(tp, b)) * b == d * (b * pw(b, k)) + val(tp, b) * b)
            by (nonlinear_arith);
    }
}

/// `dec ← dec * mul + add`, keeping `dec` a canonical decimal numeral.
pub fn mul_add(dec: &mut Vec<u32>, mul: u32, add: u32)
    requires
        canonical(old(dec)@, 10),
        mul <= 900,
        add < 900,
    ensures
        canonical(final(dec)@, 10),
        val(final(dec)@, 10) == val(old(dec)@, 10) * mul + add,
{
    let ghost s0 = dec@;
    let ghost total = val(s0, 10) * mul + add;
    let n = dec.len();
    let mut carry: u32 = add;
    let mut i: usize = n;
    assert(dec@.skip(n as int) =~= Seq::<u32>::empty());
    assert(s0.skip(n as int) =~= Seq::<u32>::empty());
    assert(dec@.take(n as int) =~= s0.take(n as int));
    proof {
        lemma_val_empty(10);
        assert(pw(10, 0) == 1);
        assert(0 * mul == 0) by (nonlinear_arith);
        assert(carry * 1 == carry) by (nonlinear_arith);
    }
    while i > 0
        invariant
            dec.len() == n,
            s0.len() == n,
            i <= n,
            digits_below(dec@, 10),
            carry < 1000,
            dec@.take(i as int) == s0.take(i as int),
            total == val(s0, 10) * mul + add,
            mul <= 900,
            val(dec@.skip(i as int), 10) + carry * pw(10, (n - i) as nat)
                == val(s0.skip(i as int), 10) * mul + add,
        decreases i,
    {
        i = i - 1;
        let d = dec[i];
        assert(s0[i as int] == d) by {
            assert(dec@.take(i as int + 1)[i as int] == s0.take(i as int + 1)[i as int]);
        }
        assert(d < 10);
        assert(d * mul <= 8100) by (nonlinear_arith)
            requires
                d < 10,
                mul <= 900,
        ;
        let a = d * mul + carry;
        let ghost old_tail = dec@.skip(i as int + 1);
        let ghost c0 = carry;
        dec.set(i, a % 10);
        carry = a / 10;
        proof {
            let p = pw(10, (n - i - 1) as nat);
            let lo = val(s0.skip(i as int + 1), 10);
            assert(dec@.skip(i as int + 1) =~= old_tail);
            assert(dec@.skip(i as int) =~= seq![(a % 10) as u32].add(old_tail));
            lemma_val_prepend(old_tail, (a % 10) as u32, 10);
            assert(s0.skip(i as int) =~= seq![d].add(s0.skip(i as int + 1)));
            lemma_val_prepend(s0.skip(i as int + 1), d, 10);
            assert(pw(10, (n - i) as nat) == 10 * p);
            lemma_fundamental_div_mod(a as int, 10);
            assert((a % 10) * p + val(old_tail, 10) + (a / 10) * (10 * p)
                == (d * p + lo) * mul + add) by (nonlinear_arith)
                requires
                    a == d * mul + c0,
                    a == 10 * (a / 10) + a % 10,
                    val(old_tail, 10) + c0 * p == lo * mul + add,
            ;
            assert(dec@.take(i as int) =~= s0.take(i as int));
        }
    }
    assert(dec@.skip(0) =~= dec@);
    assert(s0.skip(0) =~= s0);
    while carry > 0
        invariant
            dec.len() >= n,
            digits_below(dec@, 10),
            val(dec@, 10) + carry * pw(10, dec.len() as nat) == total,
        decreases carry,
    {
        let ghost before = dec@;
        let c = carry;
        dec.insert(0, c % 10);
        carry = c / 10;
        proof {
            assert(dec@ =~= seq![(c % 10) as u32].add(before));
            lemma_val_prepend(before, (c % 10) as u32, 10);
            let p = pw(10, before.len());
            assert(pw(10, dec.len() as nat) == 10 * p);
            lemma_fundamental_div_mod(c as int, 10);
            assert((c % 10) * p + val(before, 10) + (c / 10) * (10 * p)
                == val(before, 10) + c * p) by (nonlinear_arith)
                requires
                    c == 10 * (c / 10) + c % 10,
            ;
        }
    }
    assert(val(dec@, 10) == total);
    while dec.len() > 1 && dec[0] == 0
        invariant
            dec.len() >= 1,
            digits_below(dec@, 10),
            val(dec@, 10) == total,
        decreases dec.len(),
    {
        let ghost before = dec@;
        dec.remove(0);
        proof {
            assert(dec@ =~= before.skip(1));
            lemma_val_drop_zero(before, 10);
        }
    }
}

/// Base-900 codewords (most significant first) to canonical decimal digits.
pub fn base900_to_decimal(cws: &[u32]) -> (r: Vec<u32>)
    requires
        digits_below(cws@, 900),
    ensures
        r@ == to_base(val(cws@, 900), 10),
        canonical(r@, 10),
{
    let mut dec: Vec<u32> = Vec::new();
    dec.push(0);
    proof {
        lemma_val_single(dec@, 10);
        lemma_val_empty(900);
        assert(cws@.take(0) =~= Seq::<u32>::empty());
    }
    let mut i: usize = 0;
    while i < cws.len()
        invariant
            i <= cws.len(),
            digits_below(cws@, 900),
            canonical(dec@, 10),
            val(dec@, 10) == val(cws@.take(i as int), 900),
        decreases cws.len() - i,
    {
        let c = cws[i];
        mul_add(&mut dec, 900, c);
        proof {
            assert(cws@.take(i as int + 1) =~= cws@.take(i as int).push(c));
            lemma_val_push(cws@.take(i as int), c, 900);
        }
        i = i + 1;
    }
    assert(cws@.take(cws.len() as int) =~= cws@);
    proof {
        lemma_canonical_is_to_base(dec@, 10);
    }
    dec
}

/// Powers of a base of at least one grow with the exponent.
pub proof fn lemma_pw_mono(b: nat, i: nat, j: nat)
    requires
        b >= 1,
        i <= j,
    ensures
        pw(b, i) <= pw(b, j),
    decreases j,
{
    if i < j {
        lemma_pw_mono(b, i, (j - 1) as nat);
        assert(pw(b, (j - 1) as nat) <= b * pw(b, (j - 1) as nat)) by (nonlinear_arith)
            requires
                b >= 1,
        ;
    }
}

/// A numeral with digits below `b` reads below `b^len`.
pub proof fn lemma_val_lt_pw(s: Seq<u32>, b: nat)
    requires
        b >= 1,
        digits_below(s, b),
    ensures
        val(s, b) < pw(b, s.len()),
    decreases s.len(),
{
    if s.len() == 0 {
        lemma_val_empty(b);
    } else {
        let p = s.drop_last();
        assert(digits_below(p, b)) by {
            assert forall|j: int| 0 <= j < p.len() implies #[trigger] p[j] < b by {
                assert(p[j] == s[j]);
            }
        }
        lemma_val_lt_pw(p, b);
        assert(s.last() < b) by {
            assert(s[s.len() - 1] < b);
        }
        let x = val(p, b);
        let q = pw(b, p.len());
        assert(x * b + s.last() < b * q) by (nonlinear_arith)
            requires
                x < q,
                s.last() < b,
        ;
    }
}

/// Reading the canonical digits of `v` gives `v` back, and they are canonical.
pub proof fn lemma_to_base_val(v: nat, b: nat)
    requires
        2 <= b <= 900,
    ensures
        val(to_base(v, b), b) == v,
        canonical(to_base(v, b), b),
    decreases v,
{
    if v < b {
        lemma_val_single(to_base(v, b), b);
    } else {
        lemma_div_decreases(v as int, b as int);
        lemma_fundamental_div_mod(v as int, b as int);
        let q = v / b;
        let d = (v % b) as u32;
        lemma_to_base_val(q, b);
        let p = to_base(q, b);
        lemma_val_push(p, d, b);
        assert(to_base(v, b) == p.push(d));
        let r: int = (v % b) as int;
        assert(q >= 1 && q * b + r == v) by (nonlinear_arith)
            requires
                v >= b,
                v == b * q + r,
                0 <= r < b,
        ;
        if p.len() == 1 {
            lemma_val_single(p, b);
        }
        assert(p.push(d)[0] == p[0]);
        assert(digits_below(p.push(d), b)) by {
            assert forall|j: int| 0 <= j < p.push(d).len() implies #[trigger] p.push(d)[j] < b by {
                if j < p.len() {
                    assert(p.push(d)[j] == p[j]);
                }
            }
        }
    }
}

/// The canonical numeral of `v` has `k` digits when `b^(k-1) <= v < b^k`, and at
/// most `k` digits when only `v < b^k` is known.
pub proof fn lemma_to_base_len(v: nat, b: nat, k: nat)
    requires
        2 <= b <= 900,
        k >= 1,
        v < pw(b, k),
    ensures
        to_base(v, b).len() <= k,
        (k == 1 || pw(b, (k - 1) as nat) <= v) ==> to_base(v, b).len() == k,
    decreases k,
{
    assert(pw(b, 1) == b) by {
        assert(pw(b, 1) == b * pw(b, 0));
        assert(b * 1 == b) by (nonlinear_arith);
    }
    if v < b {
        if k >= 2 {
            lemma_pw_mono(b, 1, (k - 1) as nat);
        }
    } else {
        lemma_fundamental_div_mod(v as int, b as int);
        let q = v / b;
        assert(k >= 2) by {
            if k == 1 {
                assert(pw(b, 1) == b);
            }
        }
        let k1 = (k - 1) as nat;
        assert(pw(b, k) == b * pw(b, k1));
        assert(q < pw(b, k1)) by (nonlinear_arith)
            requires
                v < b * pw(b, k1),
                v == b * q + v % b,
                v % b >= 0,
                b >= 2,
        ;
        lemma_to_base_len(q, b, k1);
        if pw(b, k1) <= v && k1 >= 2 {
            let k2 = (k1 - 1) as nat;
            assert(pw(b, k1) == b * pw(b, k2));
            assert(pw(b, k2) <= q) by (nonlinear_arith)
                requires
                    b * pw(b, k2) <= v,
                    v == b * q + v % b,
                    v % b < b,
                    b >= 2,
            ;
        }
    }
}

} // verus!
