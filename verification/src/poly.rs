//! Polynomials over the integers, as sequences of coefficients, and their
//! evaluation. The Reed–Solomon modules state their contracts with these
//! definitions and reduce modulo their field's prime (or work bitwise in GF(2^m)).
use vstd::prelude::*;
use vstd::arithmetic::div_mod::{lemma_add_mod_noop, lemma_mul_mod_noop_left, lemma_mul_mod_noop_right, lemma_mod_twice};

verus! {

/// `x^n`.
pub open spec fn xpow(x: int, n: nat) -> int
    decreases n,
{
    if n == 0 {
        1
    } else {
        x * xpow(x, (n - 1) as nat)
    }
}

/// `x^(a+b) = x^a · x^b`.
pub proof fn lemma_pow_adds(x: int, a: nat, b: nat)
    ensures
        xpow(x, a + b) == xpow(x, a) * xpow(x, b),
    decreases b,
{
    if b > 0 {
        lemma_pow_adds(x, a, (b - 1) as nat);
        let pa = xpow(x, a);
        let pb = xpow(x, (b - 1) as nat);
        assert(x * (pa * pb) == pa * (x * pb)) by (nonlinear_arith);
    }
}

/// Evaluation of `s` at `x`, least-significant coefficient first: `Σ s[j]·x^j`.
pub open spec fn peval(s: Seq<int>, x: int) -> int
    decreases s.len(),
{
    if s.len() == 0 {
        0
    } else {
        peval(s.drop_last(), x) + s.last() * xpow(x, (s.len() - 1) as nat)
    }
}

/// Horner evaluation of `s` at `x` modulo `p`, most-significant coefficient first.
pub open spec fn horner(s: Seq<int>, x: int, p: int) -> int
    decreases s.len(),
{
    if s.len() == 0 {
        0
    } else {
        (horner(s.drop_last(), x, p) * x + s.last()) % p
    }
}

/// Prepending a coefficient: `peval(c :: r) = c + x·peval(r)`.
pub proof fn lemma_peval_cons(c: int, r: Seq<int>, x: int)
    ensures
        peval(seq![c] + r, x) == c + x * peval(r, x),
    decreases r.len(),
{
    let s = seq![c] + r;
    if r.len() == 0 {
        assert(s.drop_last() =~= Seq::<int>::empty());
        assert(xpow(x, 0) == 1);
        assert(s.len() == 1 && s.last() == c);
        assert(peval(s.drop_last(), x) == 0);
        assert(xpow(x, (s.len() - 1) as nat) == 1);
        assert(peval(s, x) == 0 + c * 1);
        assert(peval(r, x) == 0);
        assert(x * 0 == 0);
    } else {
        assert(s.drop_last() =~= seq![c] + r.drop_last());
        lemma_peval_cons(c, r.drop_last(), x);
        let n = (r.len() - 1) as nat;
        assert(xpow(x, (n + 1) as nat) == x * xpow(x, n));
        let a = peval(r.drop_last(), x);
        let l = r.last();
        assert(s.last() == l);
        assert(s.len() - 1 == n + 1);
        assert(peval(s, x) == c + x * a + l * xpow(x, (n + 1) as nat));
        assert(l * (x * xpow(x, n)) == x * (l * xpow(x, n))) by (nonlinear_arith);
        assert(x * a + x * (l * xpow(x, n)) == x * (a + l * xpow(x, n))) by (nonlinear_arith);
        assert(peval(r, x) == a + l * xpow(x, n));
    }
}

/// Appending a block: `peval(u ++ v) = peval(u) + x^|u|·peval(v)`.
pub proof fn lemma_peval_append(u: Seq<int>, v: Seq<int>, x: int)
    ensures
        peval(u + v, x) == peval(u, x) + xpow(x, u.len()) * peval(v, x),
    decreases v.len(),
{
    if v.len() == 0 {
        assert(u + v =~= u);
    } else {
        assert((u + v).drop_last() =~= u + v.drop_last());
        lemma_peval_append(u, v.drop_last(), x);
        let n = (v.len() - 1) as nat;
        lemma_pow_adds(x, u.len(), n);
        let pu = xpow(x, u.len());
        let pn = xpow(x, n);
        let l = v.last();
        let b = peval(v.drop_last(), x);
        assert(pu * b + l * (pu * pn) == pu * (b + l * pn)) by (nonlinear_arith);
    }
}

/// Pointwise linear combination: `peval(a + c·b) = peval(a) + c·peval(b)`.
pub proof fn lemma_peval_lin(a: Seq<int>, b: Seq<int>, c: int, x: int)
    requires
        a.len() == b.len(),
    ensures
        peval(Seq::new(a.len(), |j: int| a[j] + c * b[j]), x) == peval(a, x) + c * peval(b, x),
    decreases a.len(),
{
    let s = Seq::new(a.len(), |j: int| a[j] + c * b[j]);
    if a.len() > 0 {
        let n = (a.len() - 1) as nat;
        let s2 = Seq::new(a.drop_last().len(), |j: int| a.drop_last()[j] + c * b.drop_last()[j]);
        assert(s.drop_last() =~= s2);
        lemma_peval_lin(a.drop_last(), b.drop_last(), c, x);
        let pn = xpow(x, n);
        let al = a.last();
        let bl = b.last();
        let pb = peval(b.drop_last(), x);
        assert((al + c * bl) * pn == al * pn + c * (bl * pn)) by (nonlinear_arith);
        assert(c * pb + c * (bl * pn) == c * (pb + bl * pn)) by (nonlinear_arith);
    }
}

/// Evaluation respects congruence of coefficients modulo `p`.
pub proof fn lemma_peval_cong(a: Seq<int>, b: Seq<int>, x: int, p: int)
    requires
        p > 0,
        a.len() == b.len(),
        forall|j: int| 0 <= j < a.len() ==> #[trigger] a[j] % p == b[j] % p,
    ensures
        peval(a, x) % p == peval(b, x) % p,
    decreases a.len(),
{
    if a.len() > 0 {
        let n = (a.len() - 1) as nat;
        lemma_peval_cong(a.drop_last(), b.drop_last(), x, p);
        let pn = xpow(x, n);
        assert(a.last() % p == b.last() % p);
        lemma_mul_mod_noop_left(a.last(), pn, p);
        lemma_mul_mod_noop_left(b.last(), pn, p);
        lemma_add_mod_noop(peval(a.drop_last(), x), a.last() * pn, p);
        lemma_add_mod_noop(peval(b.drop_last(), x), b.last() * pn, p);
    }
}

/// Horner's rule computes the evaluation of the reversed coefficients.
pub proof fn lemma_horner_peval(s: Seq<int>, x: int, p: int)
    requires
        p > 0,
    ensures
        horner(s, x, p) == peval(s.reverse(), x) % p,
    decreases s.len(),
{
    if s.len() == 0 {
        assert(s.reverse() =~= Seq::<int>::empty());
        assert(peval(s.reverse(), x) == 0);
    } else {
        lemma_horner_peval(s.drop_last(), x, p);
        assert(s.reverse() =~= seq![s.last()] + s.drop_last().reverse());
        lemma_peval_cons(s.last(), s.drop_last().reverse(), x);
        let r = peval(s.drop_last().reverse(), x);
        let h = horner(s.drop_last(), x, p);
        // h == r % p, so (h * x + l) % p == (x * r + l) % p
        lemma_mul_mod_noop_left(r, x, p);
        lemma_add_mod_noop(h * x, s.last(), p);
        lemma_add_mod_noop(r * x, s.last(), p);
        lemma_mod_twice(r * x, p);
        assert(r * x == x * r) by (nonlinear_arith);
        assert(peval(s.reverse(), x) == s.last() + x * r);
        assert(horner(s, x, p) == (h * x + s.last()) % p);
        assert((h * x) % p == (r * x) % p);
        assert((h * x + s.last()) % p == (r * x + s.last()) % p);
        assert(r * x + s.last() == s.last() + x * r);
    }
}

} // verus!

verus! {

/// Coefficients of a `u32` slice as integers.
pub open spec fn ints32(s: Seq<u32>) -> Seq<int> {
    s.map_values(|v: u32| v as int)
}

/// Coefficients of a `u8` slice as integers.
pub open spec fn ints8(s: Seq<u8>) -> Seq<int> {
    s.map_values(|v: u8| v as int)
}

/// `a ≡ 0` and `b ≡ 0` give `a + b ≡ 0` modulo `p`.
pub proof fn lemma_zero_mod_add(a: int, b: int, p: int)
    requires
        p > 0,
        a % p == 0,
        b % p == 0,
    ensures
        (a + b) % p == 0,
{
    lemma_add_mod_noop(a, b, p);
    vstd::arithmetic::div_mod::lemma_small_mod(0, p as nat);
}

/// `a ≡ 0` gives `a·b ≡ 0` modulo `p`.
pub proof fn lemma_zero_mod_mul(a: int, b: int, p: int)
    requires
        p > 0,
        a % p == 0,
    ensures
        (a * b) % p == 0,
        (b * a) % p == 0,
{
    lemma_mul_mod_noop_left(a, b, p);
    vstd::arithmetic::div_mod::lemma_small_mod(0, p as nat);
    assert(0 * b == 0);
    assert(a * b == b * a) by (nonlinear_arith);
}

/// Congruence is the same as a difference divisible by `p`.
pub proof fn lemma_cong_diff(a: int, b: int, p: int)
    requires
        p > 0,
    ensures
        (a % p == b % p) <==> ((a - b) % p == 0),
{
    vstd::arithmetic::div_mod::lemma_mod_equivalence(a, b, p);
}

} // verus!

verus! {

/// Exact evaluation, most-significant digit first: `Σ s[i]·b^(n-1-i)`.
pub open spec fn horner_int(s: Seq<int>, b: int) -> int
    decreases s.len(),
{
    if s.len() == 0 {
        0
    } else {
        horner_int(s.drop_last(), b) * b + s.last()
    }
}

/// Reading digits most-significant first is evaluating them reversed.
pub proof fn lemma_horner_int_rev(s: Seq<int>, b: int)
    ensures
        horner_int(s.reverse(), b) == peval(s, b),
    decreases s.len(),
{
    if s.len() == 0 {
        assert(s.reverse() =~= Seq::<int>::empty());
    } else {
        // s = [s0] ++ t ; reverse(s) = reverse(t) ++ [s0]
        let t = s.drop_first();
        assert(s =~= seq![s[0]] + t);
        assert(s.reverse().drop_last() =~= t.reverse());
        assert(s.reverse().last() == s[0]);
        lemma_horner_int_rev(t, b);
        lemma_peval_cons(s[0], t, b);
        assert(peval(t, b) * b == b * peval(t, b)) by (nonlinear_arith);
    }
}

} // verus!
