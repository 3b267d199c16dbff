//! GF(929) arithmetic and Reed–Solomon codes as used by PDF417.
//!
//! 929 is prime, so the field is the integers modulo 929. The generator element is
//! `α = 3`, and the Reed–Solomon generator polynomial has roots `α^1 .. α^k`.
//! Codeword blocks are polynomials with the first codeword as the highest-degree
//! coefficient, so a clean block evaluates to zero at every generator root.
use vstd::prelude::*;
use crate::poly::{
    xpow, horner, peval, ints32, lemma_peval_cons, lemma_peval_append, lemma_peval_lin,
    lemma_peval_cong, lemma_horner_peval, lemma_zero_mod_add, lemma_zero_mod_mul, lemma_cong_diff,
};
use vstd::arithmetic::div_mod::{
    lemma_add_mod_noop, lemma_add_mod_noop_right, lemma_sub_mod_noop_right, lemma_mul_mod_noop_right,
    lemma_mul_mod_noop_left, lemma_mod_bound, lemma_mod_twice, lemma_small_mod,
    lemma_mod_add_multiples_vanish,
};

verus! {

/// The field modulus.
pub const MOD: u32 = 929;

/// The primitive element used to build the generator polynomial.
const ALPHA: u32 = 3;

/// `α^i` reduced into the field: the `i`-th generator root.
pub open spec fn root(i: nat) -> int {
    xpow(3, i) % 929
}

/// `s` has every coefficient below the modulus.
pub open spec fn reduced(s: Seq<u32>) -> bool {
    forall|j: int| 0 <= j < s.len() ==> #[trigger] s[j] < MOD
}

/// A block (first codeword highest degree) that vanishes at `α^1 ..= α^k`.
pub open spec fn is_codeword(block: Seq<int>, k: nat) -> bool {
    forall|j: nat| 1 <= j <= k ==> #[trigger] horner(block, root(j), 929) == 0
}

/// `g · (x − r)`, coefficients least-significant first, reduced modulo 929.
pub open spec fn mul_root(g: Seq<int>, r: int) -> Seq<int> {
    Seq::new(
        g.len() + 1,
        |j: int|
            ((if j >= 1 { g[j - 1] } else { 0 }) + (if j < g.len() {
                (g[j] * ((0 - r) % 929)) % 929
            } else {
                0
            })) % 929,
    )
}

/// The generator polynomial `∏(x − α^i)` for `i` in `1..=k`, least-significant first.
pub open spec fn gen_poly(k: nat) -> Seq<int>
    decreases k,
{
    if k == 0 {
        seq![1int]
    } else {
        mul_root(gen_poly((k - 1) as nat), root(k))
    }
}

/// Add two field elements.
fn add(a: u32, b: u32) -> (r: u32)
    requires
        a + b <= u32::MAX,
    ensures
        r == (a + b) % 929,
        r < MOD,
{
    (a + b) % MOD
}

/// Subtract `b` from `a`.
fn sub(a: u32, b: u32) -> (r: u32)
    requires
        a + MOD <= u32::MAX,
    ensures
        r == (a - b) % 929,
        r < MOD,
{
    proof {
        vstd::arithmetic::div_mod::lemma_sub_mod_noop_right(a + 929, b as int, 929);
        vstd::arithmetic::div_mod::lemma_mod_add_multiples_vanish(a - b, 929);
    }
    (a + MOD - b % MOD) % MOD
}

/// Multiply two field elements.
fn mul(a: u32, b: u32) -> (r: u32)
    requires
        a < MOD,
        b < MOD,
    ensures
        r == (a * b) % 929,
        r < MOD,
{
    proof {
        vstd::arithmetic::mul::lemma_mul_upper_bound(a as int, 928, b as int, 928);
    }
    (a * b) % MOD
}

/// Raise `base` to `exp` in the field.
fn pow(base: u32, exp: u32) -> (r: u32)
    ensures
        r == xpow(base as int, exp as nat) % 929,
        r < MOD,
{
    let mut acc: u32 = 1;
    let b = base % MOD;
    let mut i: u32 = 0;
    while i < exp
        invariant
            i <= exp,
            b == base % 929,
            acc == xpow(base as int, i as nat) % 929,
            acc < MOD,
        decreases exp - i,
    {
        proof {
            vstd::arithmetic::div_mod::lemma_mul_mod_noop(xpow(base as int, i as nat), base as int, 929);
            vstd::arithmetic::div_mod::lemma_mod_twice(xpow(base as int, i as nat), 929);
            vstd::arithmetic::div_mod::lemma_mod_twice(base as int, 929);
            assert(xpow(base as int, (i + 1) as nat) == base * xpow(base as int, i as nat));
            assert(xpow(base as int, i as nat) * base == base * xpow(base as int, i as nat))
                by (nonlinear_arith);
        }
        acc = self::mul(acc, b);
        i = i + 1;
    }
    proof {
        vstd::arithmetic::power::lemma_pow0(0);
    }
    acc
}

/// Multiplicative inverse of a non-zero element (Fermat: `a^(p-2)`).
fn inv(a: u32) -> (r: u32)
    ensures
        r == xpow(a as int, 927) % 929,
        r < MOD,
{
    pow(a, MOD - 2)
}

/// `α^n`.
fn exp(n: u32) -> (r: u32)
    ensures
        r == root(n as nat),
        r < MOD,
{
    pow(ALPHA, n)
}


/// `(a + (b · (c mod p)) mod p) mod p ≡ a + b·c`.
proof fn lemma_term_cong(a: int, b: int, c: int)
    ensures
        ((a + (b * (c % 929)) % 929) % 929) == (a + b * c) % 929,
{
    lemma_mul_mod_noop_right(b, c, 929);
    lemma_add_mod_noop_right(a, b * (c % 929), 929);
    lemma_add_mod_noop_right(a, b * c, 929);
}

/// Multiplying by `(x − r)`, evaluated anywhere.
proof fn lemma_mul_root_eval(g: Seq<int>, r: int, x: int)
    requires
        g.len() >= 1,
    ensures
        peval(mul_root(g, r), x) % 929 == ((x - r) * peval(g, x)) % 929,
{
    let n = g.len();
    let a = seq![0int] + g;
    let b = g.push(0int);
    let c = Seq::new(a.len(), |j: int| a[j] + (-r) * b[j]);
    let m = mul_root(g, r);
    assert forall|j: int| 0 <= j < m.len() implies #[trigger] m[j] % 929 == c[j] % 929 by {
        let aj = if j >= 1 { g[j - 1] } else { 0 };
        assert(a[j] == aj);
        if j < n {
            assert(b[j] == g[j]);
            lemma_term_cong(aj, g[j], 0 - r);
            assert(g[j] * (0 - r) == (-r) * g[j]) by (nonlinear_arith);
            lemma_mod_twice(aj + g[j] * (0 - r), 929);
        } else {
            assert(b[j] == 0);
            assert((-r) * 0 == 0);
            lemma_mod_twice(aj, 929);
        }
    }
    lemma_peval_cong(m, c, x, 929);
    lemma_peval_lin(a, b, -r, x);
    lemma_peval_cons(0, g, x);
    lemma_peval_append(g, seq![0int], x);
    assert(g + seq![0int] =~= b);
    assert(peval(seq![0int], x) == 0) by {
        assert(seq![0int].drop_last() =~= Seq::<int>::empty());
        assert(peval(Seq::<int>::empty(), x) == 0);
        assert(0 * xpow(x, 0) == 0);
    }
    let pg = peval(g, x);
    assert(x * pg + (-r) * pg == (x - r) * pg) by (nonlinear_arith);
    assert(xpow(x, g.len()) * 0 == 0);
}

/// Shape of the generator polynomial: degree `k`, monic, reduced coefficients.
proof fn lemma_gen_shape(k: nat)
    ensures
        gen_poly(k).len() == k + 1,
        gen_poly(k)[k as int] == 1,
        forall|j: int| 0 <= j <= k ==> 0 <= #[trigger] gen_poly(k)[j] < 929,
    decreases k,
{
    if k > 0 {
        lemma_gen_shape((k - 1) as nat);
        let g = gen_poly((k - 1) as nat);
        assert forall|j: int| 0 <= j <= k implies 0 <= #[trigger] gen_poly(k)[j] < 929 by {
            let aj = if j >= 1 { g[j - 1] } else { 0 };
            let t = if j < g.len() { (g[j] * ((0 - root(k)) % 929)) % 929 } else { 0 };
            lemma_mod_bound(aj + t, 929);
        }
        lemma_small_mod(1, 929);
    }
}

/// Every `α^i`, `1 ≤ i ≤ k`, is a root of the generator polynomial.
proof fn lemma_gen_roots(k: nat)
    ensures
        forall|i: nat| 1 <= i <= k ==> #[trigger] peval(gen_poly(k), root(i)) % 929 == 0,
    decreases k,
{
    if k > 0 {
        lemma_gen_roots((k - 1) as nat);
        lemma_gen_shape((k - 1) as nat);
        let g = gen_poly((k - 1) as nat);
        assert forall|i: nat| 1 <= i <= k implies #[trigger] peval(gen_poly(k), root(i)) % 929 == 0 by {
            lemma_mul_root_eval(g, root(k), root(i));
            if i == k {
                let d = root(i) - root(k);
                let y = peval(g, root(i));
                assert(d * y == 0) by (nonlinear_arith)
                    requires
                        d == 0,
                ;
                lemma_small_mod(0, 929);
            } else {
                lemma_zero_mod_mul(peval(g, root(i)), root(i) - root(k), 929);
            }
        }
    }
}

/// The generator polynomial of degree `k`, `∏(x - α^i)` for `i` in `1..=k`,
/// returned as coefficients least-significant first (constant term at index 0;
/// the monic leading coefficient at index `k` is `1`).
pub fn generator(k: usize) -> (g: Vec<u32>)
    requires
        k < u32::MAX,
    ensures
        ints32(g@) == gen_poly(k as nat),
        g@.len() == k + 1,
        reduced(g@),
{
    let mut g: Vec<u32> = vec![1u32];
    let mut i: usize = 1;
    proof {
        assert(ints32(g@) =~= seq![1int]);
    }
    while i <= k
        invariant
            1 <= i <= k + 1,
            k < u32::MAX,
            ints32(g@) == gen_poly((i - 1) as nat),
            g@.len() == i,
            reduced(g@),
        decreases k + 1 - i,
    {
        let rt = exp(i as u32);
        let nr = self::sub(0, rt);
        let glen = g.len();
        let mut next: Vec<u32> = vec![0u32; glen + 1];
        let ghost gs = ints32(g@);
        let ghost want = mul_root(gs, root(i as nat));
        let mut j: usize = 0;
        while j < glen
            invariant
                glen == g@.len(),
                gs == ints32(g@),
                reduced(g@),
                nr == (0 - root(i as nat)) % 929,
                nr < MOD,
                want == mul_root(gs, root(i as nat)),
                j <= glen,
                next@.len() == glen + 1,
                forall|jj: int| 0 <= jj < j ==> next@[jj] == want[jj],
                next@[j as int] == (if j >= 1 { g@[j - 1] } else { 0 }),
                forall|jj: int| j < jj <= glen ==> next@[jj] == 0,
            decreases glen - j,
        {
            let c = g[j];
            let t = self::mul(c, nr);
            let cur = next[j];
            next.set(j, self::add(cur, t));
            let nxt = next[j + 1];
            next.set(j + 1, self::add(nxt, c));
            proof {
                lemma_small_mod(c as nat, 929);
                assert(next@[j as int] == want[j as int]);
            }
            j = j + 1;
        }
        proof {
            lemma_small_mod(g@[glen - 1] as nat, 929);
            assert(next@[glen as int] == want[glen as int]);
            assert(ints32(next@) =~= want);
            assert(gen_poly(i as nat) == want);
            lemma_gen_shape(i as nat);
            assert forall|jj: int| 0 <= jj < next@.len() implies #[trigger] next@[jj] < MOD by {
                assert(ints32(next@)[jj] == gen_poly(i as nat)[jj]);
            }
        }
        g = next;
        i = i + 1;
    }
    g
}


/// One step of the systematic encoder's shift register, evaluated at a root `r`
/// of the generator: if the register held `H·r^k` it now holds `(H·r + d)·r^k`.
proof fn lemma_encode_step(e: Seq<int>, g: Seq<int>, nx: Seq<int>, t: int, d: int, r: int, h: int)
    requires
        e.len() >= 1,
        g.len() == e.len() + 1,
        g[e.len() as int] == 1,
        nx.len() == e.len(),
        nx[0] == (0 - (t * g[0]) % 929) % 929,
        forall|j: int| 1 <= j < e.len() ==> #[trigger] nx[j] == (e[j - 1] - (t * g[j]) % 929) % 929,
        t == (d % 929 + e[e.len() - 1]) % 929,
        peval(g, r) % 929 == 0,
        peval(e, r) % 929 == (h * xpow(r, e.len())) % 929,
    ensures
        peval(nx, r) % 929 == (((h * r + d) % 929) * xpow(r, e.len())) % 929,
{
    let k = e.len();
    let p = 929int;
    let a = seq![0int] + e;
    let q = Seq::new(a.len(), |j: int| a[j] + (-t) * g[j]);
    let qd = q.drop_last();
    let rk = xpow(r, k);
    let ev = peval(e, r);
    let gv = peval(g, r);
    lemma_peval_lin(a, g, -t, r);
    lemma_peval_cons(0, e, r);
    assert(q[k as int] == e[k - 1] - t) by {
        assert(a[k as int] == e[k - 1]);
    }
    assert(peval(q, r) == peval(qd, r) + q[k as int] * rk);
    assert forall|j: int| 0 <= j < nx.len() implies #[trigger] nx[j] % p == qd[j] % p by {
        if j == 0 {
            assert(qd[0] == 0 + (-t) * g[0]);
            lemma_sub_mod_noop_right(0, t * g[0], p);
            lemma_mod_twice(0 - t * g[0], p);
            assert(0 - t * g[0] == 0 + (-t) * g[0]) by (nonlinear_arith);
        } else {
            assert(qd[j] == e[j - 1] + (-t) * g[j]);
            lemma_sub_mod_noop_right(e[j - 1], t * g[j], p);
            lemma_mod_twice(e[j - 1] - t * g[j], p);
            assert(e[j - 1] - t * g[j] == e[j - 1] + (-t) * g[j]) by (nonlinear_arith);
        }
    }
    lemma_peval_cong(nx, qd, r, p);
    // peval(qd) = r·ev − t·gv − (e_{k-1} − t)·rk
    let pq = peval(qd, r);
    assert(pq == r * ev + (-t) * gv - (e[k - 1] - t) * rk);
    // target: (h·r + d)·rk ≡ r·ev + d·rk
    let h2 = (h * r + d) % p;
    // Step 1: pq − (r·ev + d·rk) ≡ 0
    assert(pq - (r * ev + d * rk) == (-t) * gv + (t - e[k - 1] - d) * rk) by (nonlinear_arith)
        requires
            pq == r * ev + (-t) * gv - (e[k - 1] - t) * rk,
    ;
    lemma_zero_mod_mul(gv, -t, p);
    assert((t - e[k - 1] - d) % p == 0) by {
        lemma_add_mod_noop(d, e[k - 1], p);
        lemma_add_mod_noop_right(0, d, p);
        lemma_mod_twice(d, p);
        assert(t % p == (d + e[k - 1]) % p) by {
            lemma_mod_twice(d % p + e[k - 1], p);
            lemma_add_mod_noop(d % p, e[k - 1], p);
            lemma_add_mod_noop(d, e[k - 1], p);
        }
        lemma_cong_diff(t, d + e[k - 1], p);
        assert(t - e[k - 1] - d == t - (d + e[k - 1]));
    }
    lemma_zero_mod_mul(t - e[k - 1] - d, rk, p);
    lemma_zero_mod_add((-t) * gv, (t - e[k - 1] - d) * rk, p);
    lemma_cong_diff(pq, r * ev + d * rk, p);
    // Step 2: r·ev + d·rk ≡ (h·r + d)·rk
    assert(((h * r + d) * rk) - (r * ev + d * rk) == r * (h * rk - ev)) by (nonlinear_arith);
    lemma_cong_diff(h * rk, ev, p);
    lemma_zero_mod_mul(h * rk - ev, r, p);
    lemma_cong_diff((h * r + d) * rk, r * ev + d * rk, p);
    // Step 3: (h·r + d)·rk ≡ h2·rk
    lemma_mul_mod_noop_left(h * r + d, rk, p);
    // Chain
    assert(peval(nx, r) % p == pq % p);
}

/// The finished block `data ++ check` vanishes at every root `r` for which the
/// register holds `horner(data)·r^k`.
proof fn lemma_encode_final(data: Seq<int>, e: Seq<int>, out: Seq<int>, r: int)
    requires
        out.len() == e.len(),
        forall|j: int| 0 <= j < e.len() ==> 0 <= #[trigger] e[j] < 929,
        forall|i: int|
            0 <= i < out.len() ==> #[trigger] out[i] == (if e[out.len() - 1 - i] == 0 {
                0
            } else {
                929 - e[out.len() - 1 - i]
            }),
        peval(e, r) % 929 == (horner(data, r, 929) * xpow(r, e.len())) % 929,
    ensures
        horner(data + out, r, 929) == 0,
{
    let p = 929int;
    let k = e.len();
    let rk = xpow(r, k);
    let ev = peval(e, r);
    lemma_horner_peval(data + out, r, p);
    lemma_horner_peval(data, r, p);
    assert((data + out).reverse() =~= out.reverse() + data.reverse());
    lemma_peval_append(out.reverse(), data.reverse(), r);
    let neg = Seq::new(e.len(), |j: int| e[j] + (-2) * e[j]);
    lemma_peval_lin(e, e, -2, r);
    assert forall|j: int| 0 <= j < k implies #[trigger] out.reverse()[j] % p == neg[j] % p by {
        assert(out.reverse()[j] == out[k - 1 - j]);
        assert(k - 1 - (k - 1 - j) == j);
        if e[j] == 0 {
            lemma_small_mod(0, 929);
        } else {
            lemma_mod_add_multiples_vanish(-e[j], p);
        }
    }
    lemma_peval_cong(out.reverse(), neg, r, p);
    let dv = peval(data.reverse(), r);
    let ov = peval(out.reverse(), r);
    // ov ≡ −ev ; rk·dv ≡ rk·(dv % p) = rk·H ≡ ev
    lemma_mul_mod_noop_right(rk, dv, p);
    assert(rk * (dv % p) == (dv % p) * rk) by (nonlinear_arith);
    assert((rk * dv) % p == ev % p);
    assert(ov % p == (-ev) % p) by {
        assert(neg.len() == k);
        assert(ev + (-2) * ev == -ev) by (nonlinear_arith);
    }
    lemma_cong_diff(ov, -ev, p);
    lemma_cong_diff(rk * dv, ev, p);
    lemma_zero_mod_add(ov - (-ev), rk * dv - ev, p);
    assert(ov + rk * dv == (ov - (-ev)) + (rk * dv - ev));
    assert(xpow(r, out.reverse().len()) == rk);
    lemma_mod_twice(ov + rk * dv, p);
}

/// Compute the `k` Reed–Solomon error-correction codewords for `data`.
///
/// The returned codewords are appended to `data` (in order) to form a block that is
/// divisible by the generator polynomial (ISO/IEC 15438 §4.10).
pub fn encode(data: &[u32], k: usize) -> (out: Vec<u32>)
    requires
        1 <= k < u32::MAX,
        forall|i: int| 0 <= i < data@.len() ==> #[trigger] data@[i] <= u32::MAX - MOD,
    ensures
        out@.len() == k,
        reduced(out@),
        is_codeword(ints32(data@) + ints32(out@), k as nat),
{
    let g = generator(k);
    let ghost gs = gen_poly(k as nat);
    proof {
        lemma_gen_shape(k as nat);
        lemma_gen_roots(k as nat);
    }
    let mut e: Vec<u32> = vec![0u32; k];
    let mut i: usize = 0;
    proof {
        assert forall|r: int| #[trigger] peval(gs, r) % 929 == 0 implies peval(ints32(e@), r) % 929
            == (horner(ints32(data@.take(0)), r, 929) * xpow(r, k as nat)) % 929 by {
            lemma_peval_zero(ints32(e@), r);
            assert(ints32(data@.take(0)) =~= Seq::<int>::empty());
            lemma_small_mod(0, 929);
        }
    }
    while i < data.len()
        invariant
            1 <= k < u32::MAX,
            i <= data@.len(),
            ints32(g@) == gs,
            gs == gen_poly(k as nat),
            g@.len() == k + 1,
            gs[k as int] == 1,
            reduced(g@),
            e@.len() == k,
            reduced(e@),
            forall|r: int| #[trigger] peval(gs, r) % 929 == 0 ==> peval(ints32(e@), r) % 929
                == (horner(ints32(data@.take(i as int)), r, 929) * xpow(r, k as nat)) % 929,
        decreases data@.len() - i,
    {
        let d = data[i];
        let t = self::add(d % MOD, e[k - 1]);
        let mut next: Vec<u32> = vec![0u32; k];
        let mut j: usize = k - 1;
        while j >= 1
            invariant
                1 <= k < u32::MAX,
                j < k,
                next@.len() == k,
                e@.len() == k,
                g@.len() == k + 1,
                reduced(e@),
                reduced(g@),
                t < MOD,
                forall|jj: int| j < jj < k ==> #[trigger] next@[jj] as int == (e@[jj - 1] - (t * g@[jj]) % 929) % 929,
            decreases j,
        {
            let m = self::mul(t, g[j]);
            next.set(j, self::sub(e[j - 1], m));
            j = j - 1;
        }
        let m0 = self::mul(t, g[0]);
        next.set(0, self::sub(0, m0));
        proof {
            let es = ints32(e@);
            let ns = ints32(next@);
            assert forall|r: int| #[trigger] peval(gs, r) % 929 == 0 implies peval(ns, r) % 929
                == (horner(ints32(data@.take(i + 1)), r, 929) * xpow(r, k as nat)) % 929 by {
                let h = horner(ints32(data@.take(i as int)), r, 929);
                assert(ints32(data@.take(i + 1)).drop_last() =~= ints32(data@.take(i as int)));
                assert(ints32(data@.take(i + 1)).last() == d);
                assert forall|jj: int| 1 <= jj < k implies #[trigger] ns[jj] == (es[jj - 1] - (t * gs[jj]) % 929) % 929 by {
                    assert(next@[jj] as int == (e@[jj - 1] - (t * g@[jj]) % 929) % 929);
                }
                lemma_encode_step(es, gs, ns, t as int, d as int, r, h);
            }
        }
        e = next;
        i = i + 1;
    }
    let mut out: Vec<u32> = Vec::with_capacity(k);
    let mut j: usize = k;
    while j > 0
        invariant
            j <= k,
            e@.len() == k,
            reduced(e@),
            out@.len() == k - j,
            forall|ii: int| 0 <= ii < out@.len() ==> #[trigger] out@[ii] as int == (if e@[k - 1 - ii] == 0 {
                0
            } else {
                929 - e@[k - 1 - ii]
            }),
            reduced(out@),
        decreases j,
    {
        j = j - 1;
        let v = e[j];
        out.push(if v == 0 { 0 } else { MOD - v });
    }
    proof {
        assert(data@.take(data@.len() as int) =~= data@);
        assert forall|jj: nat| 1 <= jj <= k implies #[trigger] horner(ints32(data@) + ints32(out@), root(jj), 929) == 0 by {
            assert(peval(gs, root(jj)) % 929 == 0);
            let es = ints32(e@);
            assert forall|ii: int| 0 <= ii < ints32(out@).len() implies #[trigger] ints32(out@)[ii] == (if es[ints32(out@).len() - 1 - ii] == 0 {
                0
            } else {
                929 - es[ints32(out@).len() - 1 - ii]
            }) by {
                assert(out@[ii] as int == (if e@[k - 1 - ii] == 0 { 0 } else { 929 - e@[k - 1 - ii] }));
            }
            lemma_encode_final(ints32(data@), es, ints32(out@), root(jj));
        }
    }
    out
}

/// The all-zero polynomial evaluates to zero.
proof fn lemma_peval_zero(s: Seq<int>, x: int)
    requires
        forall|j: int| 0 <= j < s.len() ==> #[trigger] s[j] == 0,
    ensures
        peval(s, x) == 0,
    decreases s.len(),
{
    if s.len() > 0 {
        lemma_peval_zero(s.drop_last(), x);
        assert(s.last() == 0);
        assert(0 * xpow(x, (s.len() - 1) as nat) == 0);
    }
}


/// A copy of `s`.
fn copy_u32(s: &[u32]) -> (v: Vec<u32>)
    ensures
        v@ == s@,
{
    let mut v: Vec<u32> = Vec::with_capacity(s.len());
    let mut i: usize = 0;
    while i < s.len()
        invariant
            i <= s@.len(),
            v@ == s@.take(i as int),
        decreases s@.len() - i,
    {
        v.push(s[i]);
        i = i + 1;
        proof {
            assert(v@ =~= s@.take(i as int));
        }
    }
    proof {
        assert(s@.take(s@.len() as int) =~= s@);
    }
    v
}

/// The syndrome `block(α^j)`, Horner over the block, first codeword highest degree.
fn syndrome(block: &[u32], j: u32) -> (s: u32)
    requires
        forall|i: int| 0 <= i < block@.len() ==> #[trigger] block@[i] <= u32::MAX - MOD,
    ensures
        s == horner(ints32(block@), root(j as nat), 929),
        s < MOD,
{
    let rt = exp(j);
    let mut s: u32 = 0;
    let mut i: usize = 0;
    while i < block.len()
        invariant
            i <= block@.len(),
            rt == root(j as nat),
            rt < MOD,
            s == horner(ints32(block@.take(i as int)), root(j as nat), 929),
            s < MOD,
            forall|ii: int| 0 <= ii < block@.len() ==> #[trigger] block@[ii] <= u32::MAX - MOD,
        decreases block@.len() - i,
    {
        let c = block[i];
        proof {
            let pre = ints32(block@.take(i as int));
            assert(ints32(block@.take(i + 1)).drop_last() =~= pre);
            assert(ints32(block@.take(i + 1)).last() == c);
            lemma_add_mod_noop(s * rt, c as int, 929);
            lemma_add_mod_noop((s * rt) % 929, c as int, 929);
            lemma_mod_twice(s * rt, 929);
        }
        s = self::add(self::mul(s, rt), c);
        i = i + 1;
    }
    proof {
        assert(block@.take(block@.len() as int) =~= block@);
    }
    s
}

/// Whether every syndrome `R(α^j)`, `j` in `1..=k`, is zero for `block`.
fn syndromes_vanish(block: &[u32], k: usize) -> (ok: bool)
    requires
        k < u32::MAX,
        forall|i: int| 0 <= i < block@.len() ==> #[trigger] block@[i] <= u32::MAX - MOD,
    ensures
        ok == is_codeword(ints32(block@), k as nat),
{
    let mut idx: usize = 0;
    while idx < k
        invariant
            idx <= k,
            k < u32::MAX,
            forall|i: int| 0 <= i < block@.len() ==> #[trigger] block@[i] <= u32::MAX - MOD,
            forall|j: nat| 1 <= j <= idx ==> #[trigger] horner(ints32(block@), root(j), 929) == 0,
        decreases k - idx,
    {
        let s = syndrome(block, (idx + 1) as u32);
        if s != 0 {
            return false;
        }
        idx = idx + 1;
    }
    true
}

/// `dst ← dst − scale · x^shift · src`, all polynomials least-significant first.
fn sub_shift(dst: &mut Vec<u32>, src: &[u32], scale: u32, shift: usize)
    requires
        reduced(old(dst)@),
        reduced(src@),
        scale < MOD,
        src@.len() + shift <= usize::MAX,
    ensures
        reduced(final(dst)@),
        final(dst)@.len() == (if old(dst)@.len() < src@.len() + shift {
            src@.len() + shift
        } else {
            old(dst)@.len() as int
        }),
{
    let needed = src.len() + shift;
    while dst.len() < needed
        invariant
            reduced(dst@),
            old(dst)@.len() <= dst@.len(),
            old(dst)@.len() < needed ==> dst@.len() <= needed,
            old(dst)@.len() >= needed ==> dst@.len() == old(dst)@.len(),
        decreases needed - dst@.len(),
    {
        dst.push(0);
    }
    let mut i: usize = 0;
    while i < src.len()
        invariant
            i <= src@.len(),
            needed == src@.len() + shift,
            dst@.len() >= needed,
            reduced(dst@),
            reduced(src@),
            scale < MOD,
            dst@.len() == (if old(dst)@.len() < needed { needed as int } else { old(dst)@.len() as int }),
        decreases src@.len() - i,
    {
        let cur = dst[i + shift];
        let m = self::mul(scale, src[i]);
        dst.set(i + shift, self::sub(cur, m));
        i = i + 1;
    }
}

/// `c` differs from `r` in at most `t` positions.
pub open spec fn within_errors(c: Seq<u32>, r: Seq<u32>, t: int) -> bool {
    exists|ps: Seq<usize>|
        #![trigger ps.len()]
        ps.len() <= t && forall|i: int|
            0 <= i < c.len() && c[i] != r[i] ==> #[trigger] ps.contains(i as usize)
}

/// Attempt to correct up to `k / 2` errors in `received` (data followed by the `k`
/// error-correction codewords), returning the corrected block, or `None` if the
/// errors exceed the correction capacity.
///
/// Implements syndrome computation, Berlekamp–Massey, a Chien search and Forney's
/// formula over GF(929).
#[verifier::loop_isolation(false)]
pub fn decode(received: &[u32], k: usize) -> (res: Option<Vec<u32>>)
    requires
        k < u32::MAX,
        forall|i: int| 0 <= i < received@.len() ==> #[trigger] received@[i] <= u32::MAX - MOD,
    ensures
        is_codeword(ints32(received@), k as nat) ==> (res matches Some(c) && c@ == received@),
        res matches Some(c) ==> {
            &&& c@.len() == received@.len()
            &&& is_codeword(ints32(c@), k as nat)
            &&& within_errors(c@, received@, (k / 2) as int)
        },
{
    let n = received.len();
    // Syndromes S_j = R(α^j) for j in 1..=k.
    let mut syndromes: Vec<u32> = Vec::with_capacity(k);
    let mut all_zero = true;
    let mut idx: usize = 0;
    while idx < k
        invariant
            idx <= k,
            k < u32::MAX,
            syndromes@.len() == idx,
            reduced(syndromes@),
            forall|i: int| 0 <= i < received@.len() ==> #[trigger] received@[i] <= u32::MAX - MOD,
            all_zero <==> forall|j: nat| 1 <= j <= idx ==> #[trigger] horner(ints32(received@), root(j), 929) == 0,
        decreases k - idx,
    {
        let s = syndrome(received, (idx + 1) as u32);
        syndromes.push(s);
        if s != 0 {
            all_zero = false;
        }
        idx = idx + 1;
    }
    if all_zero {
        let c = copy_u32(received);
        proof {
            let ps = Seq::<usize>::empty();
            assert(ps.len() <= k / 2 && forall|i: int|
                0 <= i < c@.len() && c@[i] != received@[i] ==> #[trigger] ps.contains(i as usize));
        }
        return Some(c);
    }

    // Berlekamp–Massey: find the error-locator polynomial Λ(x), least-significant
    // first with Λ_0 == 1.
    let mut sigma: Vec<u32> = vec![1u32];
    let mut prev: Vec<u32> = vec![1u32];
    let mut l: usize = 0;
    let mut m: usize = 1;
    let mut b: u32 = 1;
    let mut i: usize = 0;
    while i < k
        invariant
            i <= k,
            k < u32::MAX,
            syndromes@.len() == k,
            reduced(syndromes@),
            1 <= sigma@.len() <= i + 1,
            reduced(sigma@),
            1 <= prev@.len(),
            1 <= m,
            prev@.len() + m <= i + 2,
            reduced(prev@),
            l <= i,
            b < MOD,
        decreases k - i,
    {
        let mut delta = syndromes[i];
        let mut j: usize = 1;
        while j <= l
            invariant
                1 <= j <= l + 1,
                l <= i,
                i < k,
                syndromes@.len() == k,
                reduced(syndromes@),
                reduced(sigma@),
                delta < MOD,
            decreases l + 1 - j,
        {
            if j < sigma.len() {
                delta = self::add(delta, self::mul(sigma[j], syndromes[i - j]));
            }
            j = j + 1;
        }
        if delta == 0 {
            m = m + 1;
        } else if l <= i - l {
            let t = sigma.clone();
            let scale = self::mul(delta, inv(b));
            sub_shift(&mut sigma, prev.as_slice(), scale, m);
            l = i + 1 - l;
            prev = t;
            b = delta;
            m = 1;
        } else {
            let scale = self::mul(delta, inv(b));
            sub_shift(&mut sigma, prev.as_slice(), scale, m);
            m = m + 1;
        }
        i = i + 1;
    }

    while sigma.len() > 1 && sigma[sigma.len() - 1] == 0
        invariant
            1 <= sigma@.len(),
            reduced(sigma@),
        decreases sigma@.len(),
    {
        sigma.pop();
    }
    let num_errors = sigma.len() - 1;
    if num_errors == 0 || num_errors > k / 2 {
        return None;
    }

    // Chien search: Λ(α^-p) == 0 marks an error at power p (received index n-1-p).
    let mut positions: Vec<usize> = Vec::new();
    let mut pp: usize = 0;
    while pp < n
        invariant
            pp <= n,
            n == received@.len(),
            positions@.len() <= pp,
            forall|q: int| 0 <= q < positions@.len() ==> #[trigger] positions@[q] < n,
            reduced(sigma@),
        decreases n - pp,
    {
        let x_inv = exp(((MOD - 1) - (pp as u32 % (MOD - 1))) % (MOD - 1));
        let mut val: u32 = 0;
        let mut pw: u32 = 1;
        let mut c: usize = 0;
        while c < sigma.len()
            invariant
                c <= sigma@.len(),
                reduced(sigma@),
                val < MOD,
                pw < MOD,
                x_inv < MOD,
            decreases sigma@.len() - c,
        {
            val = self::add(val, self::mul(sigma[c], pw));
            pw = self::mul(pw, x_inv);
            c = c + 1;
        }
        if val == 0 {
            positions.push(n - 1 - pp);
        }
        pp = pp + 1;
    }
    if positions.len() != num_errors {
        return None;
    }

    // Ω(x) = [S(x)·Λ(x)] mod x^k, with S(x) = Σ S_{i+1} x^i (least-significant first).
    let mut omega: Vec<u32> = vec![0u32; k];
    let mut si: usize = 0;
    while si < k
        invariant
            si <= k,
            omega@.len() == k,
            syndromes@.len() == k,
            reduced(omega@),
            reduced(syndromes@),
            reduced(sigma@),
        decreases k - si,
    {
        let s = syndromes[si];
        let mut sj: usize = 0;
        while sj < sigma.len()
            invariant
                sj <= sigma@.len(),
                si < k,
                omega@.len() == k,
                reduced(omega@),
                reduced(sigma@),
                s < MOD,
            decreases sigma@.len() - sj,
        {
            if sj < k - si {
                let cur = omega[si + sj];
                omega.set(si + sj, self::add(cur, self::mul(s, sigma[sj])));
            }
            sj = sj + 1;
        }
        si = si + 1;
    }

    // Forney's formula; the sign of the magnitude is settled by the syndrome check.
    let mut magnitudes: Vec<u32> = Vec::with_capacity(positions.len());
    let mut q: usize = 0;
    while q < positions.len()
        invariant
            q <= positions@.len(),
            n == received@.len(),
            forall|qq: int| 0 <= qq < positions@.len() ==> #[trigger] positions@[qq] < n,
            1 <= sigma@.len(),
            magnitudes@.len() == q,
            reduced(magnitudes@),
            reduced(omega@),
            reduced(sigma@),
        decreases positions@.len() - q,
    {
        let pos = positions[q];
        let p = (n - 1 - pos) as u32;
        let x_inv = inv(exp(p));
        let mut omega_val: u32 = 0;
        let mut pw: u32 = 1;
        let mut c: usize = 0;
        while c < omega.len()
            invariant
                c <= omega@.len(),
                reduced(omega@),
                omega_val < MOD,
                pw < MOD,
                x_inv < MOD,
            decreases omega@.len() - c,
        {
            omega_val = self::add(omega_val, self::mul(omega[c], pw));
            pw = self::mul(pw, x_inv);
            c = c + 1;
        }
        let mut deriv: u32 = 0;
        let mut pw: u32 = 1;
        let mut c: usize = 1;
        while c < sigma.len()
            invariant
                1 <= c <= sigma@.len(),
                reduced(sigma@),
                deriv < MOD,
                pw < MOD,
                x_inv < MOD,
            decreases sigma@.len() - c,
        {
            let jm = (c as u32) % MOD;
            deriv = self::add(deriv, self::mul(self::mul(jm, sigma[c]), pw));
            pw = self::mul(pw, x_inv);
            c = c + 1;
        }
        if deriv == 0 {
            return None;
        }
        magnitudes.push(self::mul(omega_val, inv(deriv)));
        q = q + 1;
    }

    let mut attempt: usize = 0;
    while attempt < 2
        invariant
            attempt <= 2,
            k < u32::MAX,
            n == received@.len(),
            positions@.len() == num_errors,
            num_errors <= k / 2,
            magnitudes@.len() == positions@.len(),
            reduced(magnitudes@),
            forall|qq: int| 0 <= qq < positions@.len() ==> #[trigger] positions@[qq] < n,
            forall|i: int| 0 <= i < received@.len() ==> #[trigger] received@[i] <= u32::MAX - MOD,
        decreases 2 - attempt,
    {
        let sign_add = attempt == 1;
        let mut corrected = copy_u32(received);
        let mut q: usize = 0;
        while q < positions.len()
            invariant
                q <= positions@.len(),
                n == received@.len(),
                corrected@.len() == n,
                magnitudes@.len() == positions@.len(),
                reduced(magnitudes@),
                forall|qq: int| 0 <= qq < positions@.len() ==> #[trigger] positions@[qq] < n,
                forall|i: int| 0 <= i < corrected@.len() ==> #[trigger] corrected@[i] <= u32::MAX - MOD,
                forall|i: int|
                    0 <= i < n && corrected@[i] != received@[i] ==> exists|w: int|
                        0 <= w < q && #[trigger] positions@[w] == i as usize,
            decreases positions@.len() - q,
        {
            let pos = positions[q];
            let mag = magnitudes[q];
            let cur = corrected[pos];
            let v = if sign_add {
                self::add(cur, mag)
            } else {
                self::sub(cur, mag)
            };
            corrected.set(pos, v);
            proof {
                assert forall|i: int| 0 <= i < n && corrected@[i] != received@[i] implies exists|w: int|
                    0 <= w < q + 1 && #[trigger] positions@[w] == i as usize by {
                    if i == pos as int {
                        assert(positions@[q as int] == pos);
                    }
                }
            }
            q = q + 1;
        }
        if syndromes_vanish(corrected.as_slice(), k) {
            proof {
                assert forall|i: int|
                    0 <= i < corrected@.len() && corrected@[i] != received@[i] implies #[trigger] positions@.contains(i as usize) by {
                    let w = choose|w: int| 0 <= w < positions@.len() && #[trigger] positions@[w] == i as usize;
                    assert(positions@[w] == i as usize);
                }
                assert(positions@.len() <= k / 2);
            }
            return Some(corrected);
        }
        attempt = attempt + 1;
    }
    None
}

} // verus!
