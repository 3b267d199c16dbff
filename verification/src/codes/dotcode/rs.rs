//! Reed–Solomon error correction over the prime field GF(113), as used by DotCode.
//!
//! 113 is prime, so the field is the integers modulo 113. The generator polynomial
//! of degree `nc` is `∏(x − 3^i)` for `i` in `1..=nc` (primitive element `α = 3`).
//! Codeword blocks are polynomials with the first word as the highest-degree
//! coefficient, so a clean block evaluates to zero at every generator root. When
//! the codeword count reaches the field size, `step` blocks are interleaved.
use vstd::prelude::*;
use crate::poly::{
    xpow, horner, peval, ints32, lemma_peval_cons, lemma_peval_append, lemma_peval_lin,
    lemma_peval_cong, lemma_horner_peval, lemma_zero_mod_add, lemma_zero_mod_mul, lemma_cong_diff,
};
use vstd::arithmetic::div_mod::{
    lemma_add_mod_noop, lemma_add_mod_noop_right, lemma_sub_mod_noop_right, lemma_mul_mod_noop_right,
    lemma_mul_mod_noop_left, lemma_mod_bound, lemma_mod_twice, lemma_small_mod,
    lemma_mod_add_multiples_vanish,
};

verus! {

/// The field modulus.
pub const MOD: u32 = 113;

/// The DotCode Galois field prime, as a signed value.
pub const GF: i32 = 113;

/// The primitive element used to build the generator polynomial.
pub const ALPHA: i32 = 3;

/// `α^i` reduced into the field: the `i`-th generator root.
pub open spec fn root(i: nat) -> int {
    xpow(3, i) % 113
}

/// `s` has every coefficient below the modulus.
pub open spec fn reduced(s: Seq<u32>) -> bool {
    forall|j: int| 0 <= j < s.len() ==> #[trigger] s[j] < MOD
}

/// A block (first codeword highest degree) that vanishes at `α^1 ..= α^k`.
pub open spec fn is_codeword(block: Seq<int>, k: nat) -> bool {
    forall|j: nat| 1 <= j <= k ==> #[trigger] horner(block, root(j), 113) == 0
}

/// `g · (x − r)`, coefficients least-significant first, reduced modulo 113.
pub open spec fn mul_root(g: Seq<int>, r: int) -> Seq<int> {
    Seq::new(
        g.len() + 1,
        |j: int|
            ((if j >= 1 { g[j - 1] } else { 0 }) + (if j < g.len() {
                (g[j] * ((0 - r) % 113)) % 113
            } else {
                0
            })) % 113,
    )
}

/// The generator polynomial `∏(x − α^i)` for `i` in `1..=k`, least-significant first.
pub open spec fn gen_poly(k: nat) -> Seq<int>
    decreases k,
{
    if k == 0 {
        seq![1int]
    } else {
        mul_root(gen_poly((k - 1) as nat), root(k))
    }
}

/// Add two field elements.
fn add(a: u32, b: u32) -> (r: u32)
    requires
        a + b <= u32::MAX,
    ensures
        r == (a + b) % 113,
        r < MOD,
{
    (a + b) % MOD
}

/// Subtract `b` from `a`.
fn sub(a: u32, b: u32) -> (r: u32)
    requires
        a + MOD <= u32::MAX,
    ensures
        r == (a - b) % 113,
        r < MOD,
{
    proof {
        vstd::arithmetic::div_mod::lemma_sub_mod_noop_right(a + 113, b as int, 113);
        vstd::arithmetic::div_mod::lemma_mod_add_multiples_vanish(a - b, 113);
    }
    (a + MOD - b % MOD) % MOD
}

/// Multiply two field elements.
fn mul(a: u32, b: u32) -> (r: u32)
    requires
        a < MOD,
        b < MOD,
    ensures
        r == (a * b) % 113,
        r < MOD,
{
    proof {
        vstd::arithmetic::mul::lemma_mul_upper_bound(a as int, 112, b as int, 112);
    }
    (a * b) % MOD
}

/// Raise `base` to `exp` in the field.
fn field_pow(base: u32, exp: u32) -> (r: u32)
    ensures
        r == xpow(base as int, exp as nat) % 113,
        r < MOD,
{
    let mut acc: u32 = 1;
    let b = base % MOD;
    let mut i: u32 = 0;
    while i < exp
        invariant
            i <= exp,
            b == base % 113,
            acc == xpow(base as int, i as nat) % 113,
            acc < MOD,
        decreases exp - i,
    {
        proof {
            vstd::arithmetic::div_mod::lemma_mul_mod_noop(xpow(base as int, i as nat), base as int, 113);
            vstd::arithmetic::div_mod::lemma_mod_twice(xpow(base as int, i as nat), 113);
            vstd::arithmetic::div_mod::lemma_mod_twice(base as int, 113);
            assert(xpow(base as int, (i + 1) as nat) == base * xpow(base as int, i as nat));
            assert(xpow(base as int, i as nat) * base == base * xpow(base as int, i as nat))
                by (nonlinear_arith);
        }
        acc = self::mul(acc, b);
        i = i + 1;
    }
    proof {
        vstd::arithmetic::power::lemma_pow0(0);
    }
    acc
}

/// Multiplicative inverse of a non-zero element (Fermat: `a^(p-2)`).
fn inv(a: u32) -> (r: u32)
    ensures
        r == xpow(a as int, 111) % 113,
        r < MOD,
{
    field_pow(a, MOD - 2)
}

/// `α^n`.
fn exp(n: u32) -> (r: u32)
    ensures
        r == root(n as nat),
        r < MOD,
{
    field_pow(3, n)
}


/// `(a + (b · (c mod p)) mod p) mod p ≡ a + b·c`.
proof fn lemma_term_cong(a: int, b: int, c: int)
    ensures
        ((a + (b * (c % 113)) % 113) % 113) == (a + b * c) % 113,
{
    lemma_mul_mod_noop_right(b, c, 113);
    lemma_add_mod_noop_right(a, b * (c % 113), 113);
    lemma_add_mod_noop_right(a, b * c, 113);
}

/// Multiplying by `(x − r)`, evaluated anywhere.
proof fn lemma_mul_root_eval(g: Seq<int>, r: int, x: int)
    requires
        g.len() >= 1,
    ensures
        peval(mul_root(g, r), x) % 113 == ((x - r) * peval(g, x)) % 113,
{
    let n = g.len();
    let a = seq![0int] + g;
    let b = g.push(0int);
    let c = Seq::new(a.len(), |j: int| a[j] + (-r) * b[j]);
    let m = mul_root(g, r);
    assert forall|j: int| 0 <= j < m.len() implies #[trigger] m[j] % 113 == c[j] % 113 by {
        let aj = if j >= 1 { g[j - 1] } else { 0 };
        assert(a[j] == aj);
        if j < n {
            assert(b[j] == g[j]);
            lemma_term_cong(aj, g[j], 0 - r);
            assert(g[j] * (0 - r) == (-r) * g[j]) by (nonlinear_arith);
            lemma_mod_twice(aj + g[j] * (0 - r), 113);
        } else {
            assert(b[j] == 0);
            assert((-r) * 0 == 0);
            lemma_mod_twice(aj, 113);
        }
    }
    lemma_peval_cong(m, c, x, 113);
    lemma_peval_lin(a, b, -r, x);
    lemma_peval_cons(0, g, x);
    lemma_peval_append(g, seq![0int], x);
    assert(g + seq![0int] =~= b);
    assert(peval(seq![0int], x) == 0) by {
        assert(seq![0int].drop_last() =~= Seq::<int>::empty());
        assert(peval(Seq::<int>::empty(), x) == 0);
        assert(0 * xpow(x, 0) == 0);
    }
    let pg = peval(g, x);
    assert(x * pg + (-r) * pg == (x - r) * pg) by (nonlinear_arith);
    assert(xpow(x, g.len()) * 0 == 0);
}

/// Shape of the generator polynomial: degree `k`, monic, reduced coefficients.
proof fn lemma_gen_shape(k: nat)
    ensures
        gen_poly(k).len() == k + 1,
        gen_poly(k)[k as int] == 1,
        forall|j: int| 0 <= j <= k ==> 0 <= #[trigger] gen_poly(k)[j] < 113,
    decreases k,
{
    if k > 0 {
        lemma_gen_shape((k - 1) as nat);
        let g = gen_poly((k - 1) as nat);
        assert forall|j: int| 0 <= j <= k implies 0 <= #[trigger] gen_poly(k)[j] < 113 by {
            let aj = if j >= 1 { g[j - 1] } else { 0 };
            let t = if j < g.len() { (g[j] * ((0 - root(k)) % 113)) % 113 } else { 0 };
            lemma_mod_bound(aj + t, 113);
        }
        lemma_small_mod(1, 113);
    }
}

/// Every `α^i`, `1 ≤ i ≤ k`, is a root of the generator polynomial.
proof fn lemma_gen_roots(k: nat)
    ensures
        forall|i: nat| 1 <= i <= k ==> #[trigger] peval(gen_poly(k), root(i)) % 113 == 0,
    decreases k,
{
    if k > 0 {
        lemma_gen_roots((k - 1) as nat);
        lemma_gen_shape((k - 1) as nat);
        let g = gen_poly((k - 1) as nat);
        assert forall|i: nat| 1 <= i <= k implies #[trigger] peval(gen_poly(k), root(i)) % 113 == 0 by {
            lemma_mul_root_eval(g, root(k), root(i));
            if i == k {
                let d = root(i) - root(k);
                let y = peval(g, root(i));
                assert(d * y == 0) by (nonlinear_arith)
                    requires
                        d == 0,
                ;
                lemma_small_mod(0, 113);
            } else {
                lemma_zero_mod_mul(peval(g, root(i)), root(i) - root(k), 113);
            }
        }
    }
}

/// The generator polynomial of degree `k`, least-significant coefficient first.
fn generator_lsf(k: usize) -> (g: Vec<u32>)
    requires
        k < u32::MAX,
    ensures
        ints32(g@) == gen_poly(k as nat),
        g@.len() == k + 1,
        reduced(g@),
{
    let mut g: Vec<u32> = vec![1u32];
    let mut i: usize = 1;
    proof {
        assert(ints32(g@) =~= seq![1int]);
    }
    while i <= k
        invariant
            1 <= i <= k + 1,
            k < u32::MAX,
            ints32(g@) == gen_poly((i - 1) as nat),
            g@.len() == i,
            reduced(g@),
        decreases k + 1 - i,
    {
        let rt = exp(i as u32);
        let nr = self::sub(0, rt);
        let glen = g.len();
        let mut next: Vec<u32> = vec![0u32; glen + 1];
        let ghost gs = ints32(g@);
        let ghost want = mul_root(gs, root(i as nat));
        let mut j: usize = 0;
        while j < glen
            invariant
                glen == g@.len(),
                gs == ints32(g@),
                reduced(g@),
                nr == (0 - root(i as nat)) % 113,
                nr < MOD,
                want == mul_root(gs, root(i as nat)),
                j <= glen,
                next@.len() == glen + 1,
                forall|jj: int| 0 <= jj < j ==> next@[jj] == want[jj],
                next@[j as int] == (if j >= 1 { g@[j - 1] } else { 0 }),
                forall|jj: int| j < jj <= glen ==> next@[jj] == 0,
            decreases glen - j,
        {
            let c = g[j];
            let t = self::mul(c, nr);
            let cur = next[j];
            next.set(j, self::add(cur, t));
            let nxt = next[j + 1];
            next.set(j + 1, self::add(nxt, c));
            proof {
                lemma_small_mod(c as nat, 113);
                assert(next@[j as int] == want[j as int]);
            }
            j = j + 1;
        }
        proof {
            lemma_small_mod(g@[glen - 1] as nat, 113);
            assert(next@[glen as int] == want[glen as int]);
            assert(ints32(next@) =~= want);
            assert(gen_poly(i as nat) == want);
            lemma_gen_shape(i as nat);
            assert forall|jj: int| 0 <= jj < next@.len() implies #[trigger] next@[jj] < MOD by {
                assert(ints32(next@)[jj] == gen_poly(i as nat)[jj]);
            }
        }
        g = next;
        i = i + 1;
    }
    g
}


/// One step of the systematic encoder's shift register, evaluated at a root `r`
/// of the generator: if the register held `H·r^k` it now holds `(H·r + d)·r^k`.
proof fn lemma_encode_step(e: Seq<int>, g: Seq<int>, nx: Seq<int>, t: int, d: int, r: int, h: int)
    requires
        e.len() >= 1,
        g.len() == e.len() + 1,
        g[e.len() as int] == 1,
        nx.len() == e.len(),
        nx[0] == (0 - (t * g[0]) % 113) % 113,
        forall|j: int| 1 <= j < e.len() ==> #[trigger] nx[j] == (e[j - 1] - (t * g[j]) % 113) % 113,
        t == (d % 113 + e[e.len() - 1]) % 113,
        peval(g, r) % 113 == 0,
        peval(e, r) % 113 == (h * xpow(r, e.len())) % 113,
    ensures
        peval(nx, r) % 113 == (((h * r + d) % 113) * xpow(r, e.len())) % 113,
{
    let k = e.len();
    let p = 113int;
    let a = seq![0int] + e;
    let q = Seq::new(a.len(), |j: int| a[j] + (-t) * g[j]);
    let qd = q.drop_last();
    let rk = xpow(r, k);
    let ev = peval(e, r);
    let gv = peval(g, r);
    lemma_peval_lin(a, g, -t, r);
    lemma_peval_cons(0, e, r);
    assert(q[k as int] == e[k - 1] - t) by {
        assert(a[k as int] == e[k - 1]);
    }
    assert(peval(q, r) == peval(qd, r) + q[k as int] * rk);
    assert forall|j: int| 0 <= j < nx.len() implies #[trigger] nx[j] % p == qd[j] % p by {
        if j == 0 {
            assert(qd[0] == 0 + (-t) * g[0]);
            lemma_sub_mod_noop_right(0, t * g[0], p);
            lemma_mod_twice(0 - t * g[0], p);
            assert(0 - t * g[0] == 0 + (-t) * g[0]) by (nonlinear_arith);
        } else {
            assert(qd[j] == e[j - 1] + (-t) * g[j]);
            lemma_sub_mod_noop_right(e[j - 1], t * g[j], p);
            lemma_mod_twice(e[j - 1] - t * g[j], p);
            assert(e[j - 1] - t * g[j] == e[j - 1] + (-t) * g[j]) by (nonlinear_arith);
        }
    }
    lemma_peval_cong(nx, qd, r, p);
    // peval(qd) = r·ev − t·gv − (e_{k-1} − t)·rk
    let pq = peval(qd, r);
    assert(pq == r * ev + (-t) * gv - (e[k - 1] - t) * rk);
    // target: (h·r + d)·rk ≡ r·ev + d·rk
    let h2 = (h * r + d) % p;
    // Step 1: pq − (r·ev + d·rk) ≡ 0
    assert(pq - (r * ev + d * rk) == (-t) * gv + (t - e[k - 1] - d) * rk) by (nonlinear_arith)
        requires
            pq == r * ev + (-t) * gv - (e[k - 1] - t) * rk,
    ;
    lemma_zero_mod_mul(gv, -t, p);
    assert((t - e[k - 1] - d) % p == 0) by {
        lemma_add_mod_noop(d, e[k - 1], p);
        lemma_add_mod_noop_right(0, d, p);
        lemma_mod_twice(d, p);
        assert(t % p == (d + e[k - 1]) % p) by {
            lemma_mod_twice(d % p + e[k - 1], p);
            lemma_add_mod_noop(d % p, e[k - 1], p);
            lemma_add_mod_noop(d, e[k - 1], p);
        }
        lemma_cong_diff(t, d + e[k - 1], p);
        assert(t - e[k - 1] - d == t - (d + e[k - 1]));
    }
    lemma_zero_mod_mul(t - e[k - 1] - d, rk, p);
    lemma_zero_mod_add((-t) * gv, (t - e[k - 1] - d) * rk, p);
    lemma_cong_diff(pq, r * ev + d * rk, p);
    // Step 2: r·ev + d·rk ≡ (h·r + d)·rk
    assert(((h * r + d) * rk) - (r * ev + d * rk) == r * (h * rk - ev)) by (nonlinear_arith);
    lemma_cong_diff(h * rk, ev, p);
    lemma_zero_mod_mul(h * rk - ev, r, p);
    lemma_cong_diff((h * r + d) * rk, r * ev + d * rk, p);
    // Step 3: (h·r + d)·rk ≡ h2·rk
    lemma_mul_mod_noop_left(h * r + d, rk, p);
    // Chain
    assert(peval(nx, r) % p == pq % p);
}

/// The finished block `data ++ check` vanishes at every root `r` for which the
/// register holds `horner(data)·r^k`.
proof fn lemma_encode_final(data: Seq<int>, e: Seq<int>, out: Seq<int>, r: int)
    requires
        out.len() == e.len(),
        forall|j: int| 0 <= j < e.len() ==> 0 <= #[trigger] e[j] < 113,
        forall|i: int|
            0 <= i < out.len() ==> #[trigger] out[i] == (if e[out.len() - 1 - i] == 0 {
                0
            } else {
                113 - e[out.len() - 1 - i]
            }),
        peval(e, r) % 113 == (horner(data, r, 113) * xpow(r, e.len())) % 113,
    ensures
        horner(data + out, r, 113) == 0,
{
    let p = 113int;
    let k = e.len();
    let rk = xpow(r, k);
    let ev = peval(e, r);
    lemma_horner_peval(data + out, r, p);
    lemma_horner_peval(data, r, p);
    assert((data + out).reverse() =~= out.reverse() + data.reverse());
    lemma_peval_append(out.reverse(), data.reverse(), r);
    let neg = Seq::new(e.len(), |j: int| e[j] + (-2) * e[j]);
    lemma_peval_lin(e, e, -2, r);
    assert forall|j: int| 0 <= j < k implies #[trigger] out.reverse()[j] % p == neg[j] % p by {
        assert(out.reverse()[j] == out[k - 1 - j]);
        assert(k - 1 - (k - 1 - j) == j);
        if e[j] == 0 {
            lemma_small_mod(0, 113);
        } else {
            lemma_mod_add_multiples_vanish(-e[j], p);
        }
    }
    lemma_peval_cong(out.reverse(), neg, r, p);
    let dv = peval(data.reverse(), r);
    let ov = peval(out.reverse(), r);
    // ov ≡ −ev ; rk·dv ≡ rk·(dv % p) = rk·H ≡ ev
    lemma_mul_mod_noop_right(rk, dv, p);
    assert(rk * (dv % p) == (dv % p) * rk) by (nonlinear_arith);
    assert((rk * dv) % p == ev % p);
    assert(ov % p == (-ev) % p) by {
        assert(neg.len() == k);
        assert(ev + (-2) * ev == -ev) by (nonlinear_arith);
    }
    lemma_cong_diff(ov, -ev, p);
    lemma_cong_diff(rk * dv, ev, p);
    lemma_zero_mod_add(ov - (-ev), rk * dv - ev, p);
    assert(ov + rk * dv == (ov - (-ev)) + (rk * dv - ev));
    assert(xpow(r, out.reverse().len()) == rk);
    lemma_mod_twice(ov + rk * dv, p);
}

/// The `k` check words of one block: appended to `data` they form a codeword.
fn encode_block(data: &[u32], k: usize) -> (out: Vec<u32>)
    requires
        1 <= k < u32::MAX,
        forall|i: int| 0 <= i < data@.len() ==> #[trigger] data@[i] <= u32::MAX - MOD,
    ensures
        out@.len() == k,
        reduced(out@),
        is_codeword(ints32(data@) + ints32(out@), k as nat),
{
    let g = generator_lsf(k);
    let ghost gs = gen_poly(k as nat);
    proof {
        lemma_gen_shape(k as nat);
        lemma_gen_roots(k as nat);
    }
    let mut e: Vec<u32> = vec![0u32; k];
    let mut i: usize = 0;
    proof {
        assert forall|r: int| #[trigger] peval(gs, r) % 113 == 0 implies peval(ints32(e@), r) % 113
            == (horner(ints32(data@.take(0)), r, 113) * xpow(r, k as nat)) % 113 by {
            lemma_peval_zero(ints32(e@), r);
            assert(ints32(data@.take(0)) =~= Seq::<int>::empty());
            lemma_small_mod(0, 113);
        }
    }
    while i < data.len()
        invariant
            1 <= k < u32::MAX,
            i <= data@.len(),
            ints32(g@) == gs,
            gs == gen_poly(k as nat),
            g@.len() == k + 1,
            gs[k as int] == 1,
            reduced(g@),
            e@.len() == k,
            reduced(e@),
            forall|r: int| #[trigger] peval(gs, r) % 113 == 0 ==> peval(ints32(e@), r) % 113
                == (horner(ints32(data@.take(i as int)), r, 113) * xpow(r, k as nat)) % 113,
        decreases data@.len() - i,
    {
        let d = data[i];
        let t = self::add(d % MOD, e[k - 1]);
        let mut next: Vec<u32> = vec![0u32; k];
        let mut j: usize = k - 1;
        while j >= 1
            invariant
                1 <= k < u32::MAX,
                j < k,
                next@.len() == k,
                e@.len() == k,
                g@.len() == k + 1,
                reduced(e@),
                reduced(g@),
                t < MOD,
                forall|jj: int| j < jj < k ==> #[trigger] next@[jj] as int == (e@[jj - 1] - (t * g@[jj]) % 113) % 113,
            decreases j,
        {
            let m = self::mul(t, g[j]);
            next.set(j, self::sub(e[j - 1], m));
            j = j - 1;
        }
        let m0 = self::mul(t, g[0]);
        next.set(0, self::sub(0, m0));
        proof {
            let es = ints32(e@);
            let ns = ints32(next@);
            assert forall|r: int| #[trigger] peval(gs, r) % 113 == 0 implies peval(ns, r) % 113
                == (horner(ints32(data@.take(i + 1)), r, 113) * xpow(r, k as nat)) % 113 by {
                let h = horner(ints32(data@.take(i as int)), r, 113);
                assert(ints32(data@.take(i + 1)).drop_last() =~= ints32(data@.take(i as int)));
                assert(ints32(data@.take(i + 1)).last() == d);
                assert forall|jj: int| 1 <= jj < k implies #[trigger] ns[jj] == (es[jj - 1] - (t * gs[jj]) % 113) % 113 by {
                    assert(next@[jj] as int == (e@[jj - 1] - (t * g@[jj]) % 113) % 113);
                }
                lemma_encode_step(es, gs, ns, t as int, d as int, r, h);
            }
        }
        e = next;
        i = i + 1;
    }
    let mut out: Vec<u32> = Vec::with_capacity(k);
    let mut j: usize = k;
    while j > 0
        invariant
            j <= k,
            e@.len() == k,
            reduced(e@),
            out@.len() == k - j,
            forall|ii: int| 0 <= ii < out@.len() ==> #[trigger] out@[ii] as int == (if e@[k - 1 - ii] == 0 {
                0
            } else {
                113 - e@[k - 1 - ii]
            }),
            reduced(out@),
        decreases j,
    {
        j = j - 1;
        let v = e[j];
        out.push(if v == 0 { 0 } else { MOD - v });
    }
    proof {
        assert(data@.take(data@.len() as int) =~= data@);
        assert forall|jj: nat| 1 <= jj <= k implies #[trigger] horner(ints32(data@) + ints32(out@), root(jj), 113) == 0 by {
            assert(peval(gs, root(jj)) % 113 == 0);
            let es = ints32(e@);
            assert forall|ii: int| 0 <= ii < ints32(out@).len() implies #[trigger] ints32(out@)[ii] == (if es[ints32(out@).len() - 1 - ii] == 0 {
                0
            } else {
                113 - es[ints32(out@).len() - 1 - ii]
            }) by {
                assert(out@[ii] as int == (if e@[k - 1 - ii] == 0 { 0 } else { 113 - e@[k - 1 - ii] }));
            }
            lemma_encode_final(ints32(data@), es, ints32(out@), root(jj));
        }
    }
    out
}

/// The all-zero polynomial evaluates to zero.
proof fn lemma_peval_zero(s: Seq<int>, x: int)
    requires
        forall|j: int| 0 <= j < s.len() ==> #[trigger] s[j] == 0,
    ensures
        peval(s, x) == 0,
    decreases s.len(),
{
    if s.len() > 0 {
        lemma_peval_zero(s.drop_last(), x);
        assert(s.last() == 0);
        assert(0 * xpow(x, (s.len() - 1) as nat) == 0);
    }
}


/// A copy of `s`.
fn copy_u32(s: &[u32]) -> (v: Vec<u32>)
    ensures
        v@ == s@,
{
    let mut v: Vec<u32> = Vec::with_capacity(s.len());
    let mut i: usize = 0;
    while i < s.len()
        invariant
            i <= s@.len(),
            v@ == s@.take(i as int),
        decreases s@.len() - i,
    {
        v.push(s[i]);
        i = i + 1;
        proof {
            assert(v@ =~= s@.take(i as int));
        }
    }
    proof {
        assert(s@.take(s@.len() as int) =~= s@);
    }
    v
}

/// The syndrome `block(α^j)`, Horner over the block, first codeword highest degree.
fn syndrome(block: &[u32], j: u32) -> (s: u32)
    requires
        forall|i: int| 0 <= i < block@.len() ==> #[trigger] block@[i] <= u32::MAX - MOD,
    ensures
        s == horner(ints32(block@), root(j as nat), 113),
        s < MOD,
{
    let rt = exp(j);
    let mut s: u32 = 0;
    let mut i: usize = 0;
    while i < block.len()
        invariant
            i <= block@.len(),
            rt == root(j as nat),
            rt < MOD,
            s == horner(ints32(block@.take(i as int)), root(j as nat), 113),
            s < MOD,
            forall|ii: int| 0 <= ii < block@.len() ==> #[trigger] block@[ii] <= u32::MAX - MOD,
        decreases block@.len() - i,
    {
        let c = block[i];
        proof {
            let pre = ints32(block@.take(i as int));
            assert(ints32(block@.take(i + 1)).drop_last() =~= pre);
            assert(ints32(block@.take(i + 1)).last() == c);
            lemma_add_mod_noop(s * rt, c as int, 113);
            lemma_add_mod_noop((s * rt) % 113, c as int, 113);
            lemma_mod_twice(s * rt, 113);
        }
        s = self::add(self::mul(s, rt), c);
        i = i + 1;
    }
    proof {
        assert(block@.take(block@.len() as int) =~= block@);
    }
    s
}

/// Whether every syndrome `R(α^j)`, `j` in `1..=k`, is zero for `block`.
fn syndromes_vanish(block: &[u32], k: usize) -> (ok: bool)
    requires
        k < u32::MAX,
        forall|i: int| 0 <= i < block@.len() ==> #[trigger] block@[i] <= u32::MAX - MOD,
    ensures
        ok == is_codeword(ints32(block@), k as nat),
{
    let mut idx: usize = 0;
    while idx < k
        invariant
            idx <= k,
            k < u32::MAX,
            forall|i: int| 0 <= i < block@.len() ==> #[trigger] block@[i] <= u32::MAX - MOD,
            forall|j: nat| 1 <= j <= idx ==> #[trigger] horner(ints32(block@), root(j), 113) == 0,
        decreases k - idx,
    {
        let s = syndrome(block, (idx + 1) as u32);
        if s != 0 {
            return false;
        }
        idx = idx + 1;
    }
    true
}


/// `α^n mod 113` for non-negative `base` and `exp`.
pub fn pow(base: i32, exp: i32) -> (r: i32)
    requires
        0 <= base,
        0 <= exp,
    ensures
        r == xpow(base as int, exp as nat) % 113,
        0 <= r < 113,
{
    field_pow(base as u32, exp as u32) as i32
}

/// The generator polynomial of degree `nc`, `∏(x − 3^i)` for `i` in `1..=nc`,
/// most-significant coefficient first: `out[0] == 1` is the coefficient of `x^nc`.
pub fn generator(nc: usize) -> (g: Vec<i32>)
    requires
        nc < 0xffff,
    ensures
        g@.len() == nc + 1,
        forall|j: int| 0 <= j <= nc ==> #[trigger] g@[j] == gen_poly(nc as nat)[nc - j],
{
    let l = generator_lsf(nc);
    let mut g: Vec<i32> = Vec::new();
    let mut j: usize = 0;
    while j <= nc
        invariant
            j <= nc + 1,
            nc < 0xffff,
            l@.len() == nc + 1,
            ints32(l@) == gen_poly(nc as nat),
            reduced(l@),
            g@.len() == j,
            forall|k: int| 0 <= k < j ==> #[trigger] g@[k] == gen_poly(nc as nat)[nc - k],
        decreases nc + 1 - j,
    {
        let v = l[nc - j];
        proof {
            assert(ints32(l@)[nc - j] == v);
        }
        g.push(v as i32);
        j = j + 1;
    }
    g
}

/// The words of the block at `start` with stride `step`: `n` of them.
pub open spec fn block_of(w: Seq<u8>, start: int, step: int, n: int) -> Seq<int> {
    Seq::new(n as nat, |i: int| w[start + i * step] as int)
}

/// `⌈a / b⌉` for `a ≥ 0`, `b > 0`.
pub open spec fn ceil_div(a: int, b: int) -> int {
    (a + b - 1) / b
}

/// Number of interleaved blocks for `nw` words, so that no block exceeds the field.
pub open spec fn step_of(nw: int) -> int {
    (nw + 111) / 112
}

/// Block `start` of `w` (`nd` data words, `nw` words in all) vanishes at its roots.
pub open spec fn block_ok(w: Seq<u8>, nd: int, nw: int, step: int, start: int) -> bool {
    let nw_b = ceil_div(nw - start, step);
    let nd_b = ceil_div(nd - start, step);
    is_codeword(block_of(w, start, step, nw_b), (nw_b - nd_b) as nat)
}

/// Positions in one residue class.
proof fn lemma_residue(s: int, k: int, step: int)
    requires
        0 <= s < step,
        0 <= k,
    ensures
        (s + k * step) % step == s,
        (s + k * step) / step == k,
{
    vstd::arithmetic::div_mod::lemma_fundamental_div_mod_converse(s + k * step, step, k, s);
}

/// `k` is below `⌈a / step⌉` exactly when `k · step` is below `a`.
proof fn lemma_ceil_below(k: int, a: int, step: int)
    requires
        0 <= k,
        0 <= a,
        step > 0,
    ensures
        (k < ceil_div(a, step)) == (k * step < a),
{
    let c = ceil_div(a, step);
    vstd::arithmetic::div_mod::lemma_fundamental_div_mod(a + step - 1, step);
    let r = (a + step - 1) % step;
    assert(a + step - 1 == step * c + r);
    vstd::arithmetic::div_mod::lemma_mod_bound(a + step - 1, step);
    if k < c {
        assert(k * step <= (c - 1) * step) by (nonlinear_arith)
            requires
                k <= c - 1,
                step > 0,
        ;
        assert((c - 1) * step == step * c - step) by (nonlinear_arith);
    } else {
        assert(k * step >= c * step) by (nonlinear_arith)
            requires
                k >= c,
                step > 0,
        ;
        assert(c * step == step * c) by (nonlinear_arith);
    }
}

/// Append `nc` Reed–Solomon check words to the `nd` data words at the front of
/// `wd`: the check words go to `wd[nd..nd + nc]`, `step` blocks interleaved so no
/// block exceeds the field size; block `s` holds the words at `s, s + step, …`.
#[verifier::loop_isolation(false)]
pub fn rsencode(nd: usize, nc: usize, wd: &mut Vec<u8>)
    requires
        old(wd)@.len() == nd + nc,
        nd + nc <= 0xffff,
        step_of(nd + nc) <= nd + 1,
        step_of(nd + nc) <= nc,
    ensures
        final(wd)@.len() == old(wd)@.len(),
        forall|i: int| 0 <= i < nd ==> #[trigger] final(wd)@[i] == old(wd)@[i],
        forall|s: int| 0 <= s < step_of(nd + nc) ==> #[trigger] block_ok(final(wd)@, nd as int, (nd + nc) as int, step_of(nd + nc), s),
        forall|i: int| 0 <= i < nd + nc ==> #[trigger] final(wd)@[i] < 113 || final(wd)@[i] == old(wd)@[i],
{
    let nw = nd + nc;
    let step = (nw + 111) / 112;
    let mut start: usize = 0;
    while start < step
        invariant
            nw == nd + nc,
            nw <= 0xffff,
            step == step_of(nw as int),
            step <= nd + 1,
            step <= nc,
            start <= step,
            wd@.len() == nw,
            forall|i: int| 0 <= i < nd ==> #[trigger] wd@[i] == old(wd)@[i],
            forall|i: int| 0 <= i < nw && i % (step as int) >= start ==> #[trigger] wd@[i] == old(wd)@[i],
            forall|s: int| 0 <= s < start ==> #[trigger] block_ok(wd@, nd as int, nw as int, step as int, s),
            forall|i: int| 0 <= i < nw ==> #[trigger] wd@[i] < 113 || wd@[i] == old(wd)@[i],
        decreases step - start,
    {
        let nd_b = (nd - start + step - 1) / step;
        let nw_b = (nw - start + step - 1) / step;
        proof {
            assert(nd_b == ceil_div(nd - start, step as int));
            assert(nw_b == ceil_div(nw - start, step as int));
            lemma_ceil_below(nd_b as int, (nd - start) as int, step as int);
            lemma_ceil_below(nw_b as int, (nw - start) as int, step as int);
            assert(nd_b * step >= nd - start);
            assert(nw_b * step >= nw - start);
            assert(nd_b <= nw_b) by (nonlinear_arith)
                requires
                    nd_b == (nd - start + step - 1) / (step as int),
                    nw_b == (nw - start + step - 1) / (step as int),
                    nd <= nw,
                    step > 0,
            ;
        }
        let nc_b = nw_b - nd_b;
        // The data words of this block.
        let mut data: Vec<u32> = Vec::new();
        let mut i: usize = 0;
        while i < nd_b
            invariant
                i <= nd_b,
                start < step,
                nd_b == ceil_div(nd - start, step as int),
                data@.len() == i,
                wd@.len() == nw,
                forall|k: int| 0 <= k < i ==> #[trigger] data@[k] == wd@[start + k * step] as u32,
            decreases nd_b - i,
        {
            proof {
                lemma_ceil_below(i as int, (nd - start) as int, step as int);
                assert(i * step < nd - start);
            }
            data.push(wd[start + i * step] as u32);
            i = i + 1;
        }
        proof {
            if nd_b >= 1 {
                lemma_ceil_below((nd_b - 1) as int, (nd - start) as int, step as int);
                assert((nd_b - 1) * step < nd - start);
                assert(nd_b * step == (nd_b - 1) * step + step) by (nonlinear_arith);
            } else {
                assert(nd_b * step == 0) by (nonlinear_arith)
                    requires
                        nd_b == 0,
                ;
            }
            assert(step <= nc && start <= nd);
            assert(nd_b * step < nw - start);
            lemma_ceil_below(nd_b as int, (nw - start) as int, step as int);
            assert(nd_b < nw_b);
        }
        let check = encode_block(data.as_slice(), nc_b);
        let ghost before = wd@;
        let mut j: usize = 0;
        while j < nc_b
            invariant
                j <= nc_b,
                nc_b == nw_b - nd_b,
                nw_b == ceil_div(nw - start, step as int),
                nd_b == ceil_div(nd - start, step as int),
                start < step,
                step <= nd + 1,
                nw == nd + nc,
                nw <= 0xffff,
                check@.len() == nc_b,
                reduced(check@),
                wd@.len() == nw,
                before.len() == nw,
                forall|i: int| 0 <= i < nw ==> #[trigger] wd@[i] < 113 || wd@[i] == before[i],
                forall|q: int| 0 <= q < j ==> #[trigger] wd@[start + (nd_b + q) * step] == check@[q],
                forall|p: int| 0 <= p < nw && (p % (step as int) != start || p < start + (nd_b + j) * step
                    && (p - start) / (step as int) < nd_b || p >= start + (nd_b + j) * step) ==> #[trigger] wd@[p] == before[p],
            decreases nc_b - j,
        {
            proof {
                lemma_ceil_below((nd_b + j) as int, (nw - start) as int, step as int);
                lemma_residue(start as int, (nd_b + j) as int, step as int);
            }
            let pos = start + (nd_b + j) * step;
            wd.set(pos, check[j] as u8);
            proof {
                assert(check@[j as int] < 113);
                assert forall|q: int| 0 <= q < j + 1 implies #[trigger] wd@[start + (nd_b + q) * step] == check@[q] by {
                    if q < j {
                        assert((nd_b + q) * step < (nd_b + j) * step) by (nonlinear_arith)
                            requires
                                q < j,
                                step > 0,
                        ;
                    }
                }
                assert forall|p: int| 0 <= p < nw && (p % (step as int) != start || p < start + (nd_b + j + 1) * step
                    && (p - start) / (step as int) < nd_b || p >= start + (nd_b + j + 1) * step) implies #[trigger] wd@[p] == before[p] by {
                    if p == pos {
                        assert(p % (step as int) == start);
                        assert((p - start) / (step as int) == nd_b + j) by {
                            lemma_residue(start as int, (nd_b + j) as int, step as int);
                            assert(p - start == (nd_b + j) * step);
                            vstd::arithmetic::div_mod::lemma_div_multiples_vanish((nd_b + j) as int, step as int);
                            assert((nd_b + j) * step == step * (nd_b + j)) by (nonlinear_arith);
                        }
                        assert((nd_b + j + 1) * step == (nd_b + j) * step + step) by (nonlinear_arith);
                    } else {
                        assert((nd_b + j + 1) * step == (nd_b + j) * step + step) by (nonlinear_arith);
                    }
                }
            }
            j = j + 1;
        }
        proof {
            assert forall|i: int| 0 <= i < nw implies #[trigger] wd@[i] < 113 || wd@[i] == old(wd)@[i] by {
                if !(wd@[i] < 113) {
                    assert(wd@[i] == before[i]);
                }
            }
            let blk = block_of(wd@, start as int, step as int, nw_b as int);
            let want = ints32(data@) + ints32(check@);
            assert forall|i: int| 0 <= i < nw_b implies #[trigger] blk[i] == want[i] by {
                lemma_residue(start as int, i, step as int);
                if i < nd_b {
                    lemma_ceil_below(i, (nd - start) as int, step as int);
                    assert((start + i * step - start) / (step as int) == i) by {
                        assert(start + i * step - start == i * step);
                        vstd::arithmetic::div_mod::lemma_div_multiples_vanish(i, step as int);
                        assert(i * step == step * i) by (nonlinear_arith);
                    }
                    assert(wd@[start + i * step] == before[start + i * step]);
                    assert(data@[i] == before[start + i * step] as u32);
                } else {
                    assert(wd@[start + (nd_b + (i - nd_b)) * step] == check@[i - nd_b]);
                }
            }
            assert(blk =~= want);
            assert(block_ok(wd@, nd as int, nw as int, step as int, start as int));
            assert forall|s2: int| 0 <= s2 < start implies #[trigger] block_ok(wd@, nd as int, nw as int, step as int, s2) by {
                let n2 = ceil_div(nw - s2, step as int);
                assert(block_ok(before, nd as int, nw as int, step as int, s2));
                assert forall|i: int| 0 <= i < n2 implies block_of(wd@, s2, step as int, n2)[i] == block_of(before, s2, step as int, n2)[i] by {
                    lemma_residue(s2, i, step as int);
                    lemma_ceil_below(i, nw - s2, step as int);
                }
                assert(block_of(wd@, s2, step as int, n2) =~= block_of(before, s2, step as int, n2));
            }
            assert forall|i: int| 0 <= i < nw && i % (step as int) >= start + 1 implies #[trigger] wd@[i] == old(wd)@[i] by {
                assert(wd@[i] == before[i]);
            }
            assert forall|i: int| 0 <= i < nd implies #[trigger] wd@[i] == old(wd)@[i] by {
                if i % (step as int) == start {
                    let q0 = i / (step as int);
                    vstd::arithmetic::div_mod::lemma_fundamental_div_mod(i, step as int);
                    vstd::arithmetic::div_mod::lemma_div_pos_is_pos(i, step as int);
                    assert(i - start == step * q0);
                    vstd::arithmetic::div_mod::lemma_div_multiples_vanish(q0, step as int);
                    assert((i - start) / (step as int) == q0);
                    assert(q0 * step == step * q0) by (nonlinear_arith);
                    lemma_ceil_below(q0, (nd - start) as int, step as int);
                    assert(q0 < nd_b);
                    assert(wd@[i] == before[i]);
                } else {
                    assert(wd@[i] == before[i]);
                }
            }
        }
        start = start + 1;
    }
}


/// The words of `w` at positions `idx`.
pub open spec fn vals_at(w: Seq<u8>, idx: Seq<usize>) -> Seq<int> {
    Seq::new(idx.len(), |j: int| w[idx[j] as int] as int)
}

/// Block `start` of `w` vanishes at its roots, its data count `⌈(nd − start)⁺ / step⌉`.
pub open spec fn block_ok_sat(w: Seq<u8>, nd: int, nw: int, step: int, start: int) -> bool {
    let nw_b = ceil_div(nw - start, step);
    let nd_b = ceil_div(if nd >= start { nd - start } else { 0 }, step);
    is_codeword(block_of(w, start, step, nw_b), (nw_b - nd_b) as nat)
}

/// Number of erased positions among `idx`.
pub open spec fn erased_count(erased: Seq<bool>, idx: Seq<usize>, n: int) -> int
    decreases n,
{
    if n <= 0 {
        0
    } else {
        erased_count(erased, idx, n - 1) + (if erased[idx[n - 1] as int] { 1int } else { 0int })
    }
}

/// At most `n` of the first `n` positions are erased.
proof fn lemma_ecount_bound(erased: Seq<bool>, idx: Seq<usize>, n: int)
    requires
        n >= 0,
    ensures
        0 <= erased_count(erased, idx, n) <= n,
    decreases n,
{
    if n > 0 {
        lemma_ecount_bound(erased, idx, n - 1);
    }
}

/// Evaluate a least-significant-first polynomial at `x`.
fn eval_lsf(p: &[u32], x: u32) -> (r: u32)
    requires
        reduced(p@),
        x < MOD,
    ensures
        r < MOD,
{
    let mut acc: u32 = 0;
    let mut i: usize = p.len();
    while i > 0
        invariant
            i <= p@.len(),
            reduced(p@),
            x < MOD,
            acc < MOD,
        decreases i,
    {
        i = i - 1;
        acc = self::add(self::mul(acc, x), p[i]);
    }
    acc
}

/// The block words `wd[idx[..]]` as field values.
fn gather(wd: &Vec<u8>, idx: &[usize]) -> (b: Vec<u32>)
    requires
        forall|j: int| 0 <= j < idx@.len() ==> #[trigger] idx@[j] < wd@.len(),
    ensures
        ints32(b@) == vals_at(wd@, idx@),
        b@.len() == idx@.len(),
        forall|j: int| 0 <= j < b@.len() ==> #[trigger] b@[j] <= 255,
{
    let mut b: Vec<u32> = Vec::new();
    let mut j: usize = 0;
    while j < idx.len()
        invariant
            j <= idx@.len(),
            forall|k: int| 0 <= k < idx@.len() ==> #[trigger] idx@[k] < wd@.len(),
            b@.len() == j,
            forall|k: int| 0 <= k < j ==> #[trigger] b@[k] == wd@[idx@[k] as int] as u32,
        decreases idx@.len() - j,
    {
        b.push(wd[idx[j]] as u32);
        j = j + 1;
    }
    proof {
        assert(ints32(b@) =~= vals_at(wd@, idx@));
    }
    b
}

/// Errors-and-erasures decoding of one block: the words `wd[idx[..]]`, first word
/// the highest-degree coefficient, generator roots `3^1..=3^nc`. Returns whether the
/// block is (now) a codeword; only the block's own words may change.
#[verifier::loop_isolation(false)]
fn decode_block(wd: &mut Vec<u8>, erased: &[bool], idx: &[usize], nc: usize) -> (ok: bool)
    requires
        forall|j: int| 0 <= j < idx@.len() ==> #[trigger] idx@[j] < old(wd)@.len(),
        erased@.len() == old(wd)@.len(),
        idx@.len() <= 0xffff,
        nc <= 0xffff,
    ensures
        final(wd)@.len() == old(wd)@.len(),
        forall|p: int| 0 <= p < old(wd)@.len() && final(wd)@[p] != old(wd)@[p] ==> exists|j: int|
            0 <= j < idx@.len() && #[trigger] idx@[j] == p,
        ok ==> is_codeword(vals_at(final(wd)@, idx@), nc as nat),
        is_codeword(vals_at(old(wd)@, idx@), nc as nat) && erased_count(erased@, idx@, idx@.len() as int) <= nc
            ==> ok && final(wd)@ == old(wd)@,
{
    let n = idx.len();
    // More erasures than check words leave nothing to verify the rest against.
    let mut e_count: usize = 0;
    let mut j: usize = 0;
    while j < n
        invariant
            j <= n,
            n == idx@.len(),
            e_count == erased_count(erased@, idx@, j as int),
            e_count <= j,
            wd@ == old(wd)@,
        decreases n - j,
    {
        if erased[idx[j]] {
            e_count = e_count + 1;
        }
        j = j + 1;
    }
    if e_count > nc {
        return false;
    }
    let block = gather(wd, idx);
    // Syndromes S_1..S_nc (stored 0-based).
    let mut syn: Vec<u32> = Vec::new();
    let mut all_zero = true;
    let mut i: usize = 0;
    while i < nc
        invariant
            i <= nc,
            syn@.len() == i,
            reduced(syn@),
            wd@ == old(wd)@,
            ints32(block@) == vals_at(wd@, idx@),
            all_zero <==> forall|jj: nat| 1 <= jj <= i ==> #[trigger] horner(ints32(block@), root(jj), 113) == 0,
        decreases nc - i,
    {
        let sv = syndrome(block.as_slice(), (i + 1) as u32);
        syn.push(sv);
        if sv != 0 {
            all_zero = false;
        }
        i = i + 1;
    }
    if all_zero {
        return true;
    }

    // Erasure locator Γ(x) = ∏(1 − X_e·x), least-significant coefficient first.
    let mut lambda: Vec<u32> = vec![1u32];
    let mut j: usize = 0;
    while j < n
        invariant
            j <= n,
            lambda@.len() == 1 + erased_count(erased@, idx@, j as int),
            reduced(lambda@),
        decreases n - j,
    {
        proof {
            lemma_ecount_bound(erased@, idx@, j as int);
        }
        if erased[idx[j]] {
            let x = exp((n - 1 - j) as u32);
            let mut next: Vec<u32> = vec![0u32; lambda.len() + 1];
            let mut k: usize = 0;
            while k < lambda.len()
                invariant
                    k <= lambda@.len(),
                    next@.len() == lambda@.len() + 1,
                    reduced(next@),
                    reduced(lambda@),
                    x < MOD,
                decreases lambda@.len() - k,
            {
                let c = lambda[k];
                let cur = next[k];
                next.set(k, self::add(cur, c));
                let nx = next[k + 1];
                next.set(k + 1, self::sub(nx, self::mul(c, x)));
                k = k + 1;
            }
            lambda = next;
        }
        j = j + 1;
    }
    let erasures = lambda.len() - 1;

    // Berlekamp–Massey, seeded with the erasure locator.
    let mut prev: Vec<u32> = copy_u32(lambda.as_slice());
    let mut l: usize = erasures;
    let mut r: usize = erasures + 1;
    while r <= nc
        invariant
            erasures + 1 <= r <= nc + 1,
            erasures <= nc,
            1 <= lambda@.len() <= 0x10000 + r,
            1 <= prev@.len() <= 0x10000 + r,
            reduced(lambda@),
            reduced(prev@),
            syn@.len() == nc,
            reduced(syn@),
            l <= r + erasures,
        decreases nc + 1 - r,
    {
        let mut delta: u32 = 0;
        let mut jj: usize = 0;
        while jj < lambda.len() && jj < r
            invariant
                jj <= lambda@.len(),
                reduced(lambda@),
                syn@.len() == nc,
                reduced(syn@),
                r <= nc,
                delta < MOD,
            decreases lambda@.len() - jj,
        {
            delta = self::add(delta, self::mul(lambda[jj], syn[r - 1 - jj]));
            jj = jj + 1;
        }
        // B(x) ← x·B(x)
        let mut shifted: Vec<u32> = vec![0u32];
        let mut t: usize = 0;
        while t < prev.len()
            invariant
                t <= prev@.len(),
                shifted@.len() == t + 1,
                reduced(shifted@),
                reduced(prev@),
            decreases prev@.len() - t,
        {
            shifted.push(prev[t]);
            t = t + 1;
        }
        prev = shifted;
        if delta != 0 {
            let mut next: Vec<u32> = copy_u32(lambda.as_slice());
            while next.len() < prev.len()
                invariant
                    reduced(next@),
                    next@.len() <= 0x10000 + r + 1,
                    prev@.len() <= 0x10000 + r + 1,
                decreases prev@.len() - next@.len(),
            {
                next.push(0);
            }
            let mut k: usize = 0;
            while k < prev.len()
                invariant
                    k <= prev@.len(),
                    next@.len() >= prev@.len(),
                    next@.len() <= 0x10000 + r + 1,
                    reduced(next@),
                    reduced(prev@),
                    delta < MOD,
                decreases prev@.len() - k,
            {
                let cur = next[k];
                next.set(k, self::sub(cur, self::mul(delta, prev[k])));
                k = k + 1;
            }
            if 2 * l < r + erasures {
                let scale = inv(delta);
                let mut np: Vec<u32> = Vec::new();
                let mut k: usize = 0;
                while k < lambda.len()
                    invariant
                        k <= lambda@.len(),
                        np@.len() == k,
                        reduced(np@),
                        reduced(lambda@),
                        scale < MOD,
                    decreases lambda@.len() - k,
                {
                    np.push(self::mul(lambda[k], scale));
                    k = k + 1;
                }
                prev = np;
                l = r + erasures - l;
            }
            lambda = next;
        }
        r = r + 1;
    }
    while lambda.len() > 1 && lambda[lambda.len() - 1] == 0
        invariant
            1 <= lambda@.len(),
            reduced(lambda@),
        decreases lambda@.len(),
    {
        lambda.pop();
    }
    let degree = lambda.len() - 1;
    if degree == 0 || degree != l || 2 * degree > nc + erasures {
        return false;
    }

    // Chien search over the block's positions.
    let mut roots: Vec<usize> = Vec::new();
    let mut jj: usize = 0;
    while jj < n
        invariant
            jj <= n,
            roots@.len() <= jj,
            forall|q: int| 0 <= q < roots@.len() ==> #[trigger] roots@[q] < n,
            reduced(lambda@),
        decreases n - jj,
    {
        let x_inv = inv(exp((n - 1 - jj) as u32));
        if eval_lsf(lambda.as_slice(), x_inv) == 0 {
            roots.push(jj);
        }
        jj = jj + 1;
    }
    if roots.len() != degree {
        return false;
    }

    // Forney: Ω(x) = S(x)·Λ(x) mod x^nc, e_k = −Ω(X_k⁻¹) / Λ′(X_k⁻¹).
    let mut omega: Vec<u32> = vec![0u32; nc];
    let mut si: usize = 0;
    while si < nc
        invariant
            si <= nc,
            omega@.len() == nc,
            reduced(omega@),
            syn@.len() == nc,
            reduced(syn@),
            reduced(lambda@),
        decreases nc - si,
    {
        let sv = syn[si];
        let mut k: usize = 0;
        while k < lambda.len()
            invariant
                k <= lambda@.len(),
                si < nc,
                omega@.len() == nc,
                reduced(omega@),
                reduced(lambda@),
                sv < MOD,
            decreases lambda@.len() - k,
        {
            if si + k < nc {
                let cur = omega[si + k];
                omega.set(si + k, self::add(cur, self::mul(sv, lambda[k])));
            }
            k = k + 1;
        }
        si = si + 1;
    }
    let mut deriv: Vec<u32> = Vec::new();
    let mut k: usize = 1;
    while k < lambda.len()
        invariant
            1 <= k <= lambda@.len(),
            reduced(deriv@),
            reduced(lambda@),
        decreases lambda@.len() - k,
    {
        deriv.push(self::mul(lambda[k], (k as u32) % MOD));
        k = k + 1;
    }
    let mut q: usize = 0;
    while q < roots.len()
        invariant
            q <= roots@.len(),
            wd@.len() == old(wd)@.len(),
            forall|qq: int| 0 <= qq < roots@.len() ==> #[trigger] roots@[qq] < n,
            reduced(omega@),
            reduced(deriv@),
            forall|p: int| 0 <= p < old(wd)@.len() && wd@[p] != old(wd)@[p] ==> exists|j: int|
                0 <= j < idx@.len() && #[trigger] idx@[j] == p,
        decreases roots@.len() - q,
    {
        let jr = roots[q];
        let x_inv = inv(exp((n - 1 - jr) as u32));
        let denom = eval_lsf(deriv.as_slice(), x_inv);
        if denom == 0 {
            return false;
        }
        let om = eval_lsf(omega.as_slice(), x_inv);
        let err = self::sub(0, self::mul(om, inv(denom)));
        let pos = idx[jr];
        let cur = (wd[pos] as u32) % MOD;
        let nv = self::sub(cur, err);
        wd.set(pos, nv as u8);
        proof {
            assert(idx@[jr as int] == pos);
        }
        q = q + 1;
    }

    // The repaired block must be a codeword.
    let fixed = gather(wd, idx);
    syndromes_vanish(fixed.as_slice(), nc)
}

/// Correct `wd` (`nd` data words followed by `nc` check words, laid out as by
/// [`rsencode`]) in place. `erased[i]` marks words known to be unreliable. Each
/// interleaved block recovers `e` erasures plus `t` errors while `e + 2t` does not
/// exceed its check-word count. Returns `false` if any block is beyond repair.
pub fn rsdecode(nd: usize, nc: usize, wd: &mut Vec<u8>, erased: &[bool]) -> (ok: bool)
    requires
        old(wd)@.len() == nd + nc,
        erased@.len() == nd + nc,
        nd + nc <= 0xffff,
    ensures
        final(wd)@.len() == old(wd)@.len(),
        ok ==> forall|s: int| 0 <= s < step_of(nd + nc) && s < nd + nc ==> #[trigger] block_ok_sat(final(wd)@,
            nd as int, (nd + nc) as int, step_of(nd + nc), s),
{
    let nw = nd + nc;
    let step = (nw + 111) / 112;
    let lim = if step < nw { step } else { nw };
    let mut start: usize = 0;
    while start < lim
        invariant
            nw == nd + nc,
            nw <= 0xffff,
            step == step_of(nw as int),
            lim <= step,
            lim <= nw,
            start <= lim,
            wd@.len() == nw,
            wd@.len() == old(wd)@.len(),
            erased@.len() == nw,
            forall|s2: int| 0 <= s2 < start ==> #[trigger] block_ok_sat(wd@, nd as int, nw as int, step as int, s2),
        decreases lim - start,
    {
        let ndr = if nd >= start { nd - start } else { 0 };
        let nd_b = (ndr + step - 1) / step;
        let nw_b = (nw - start + step - 1) / step;
        if nw_b <= nd_b {
            return false;
        }
        let mut idx: Vec<usize> = Vec::new();
        let mut i: usize = 0;
        while i < nw_b
            invariant
                i <= nw_b,
                start < step,
                start < nw,
                nw_b == ceil_div(nw - start, step as int),
                idx@.len() == i,
                forall|k: int| 0 <= k < i ==> #[trigger] idx@[k] == start + k * step,
                forall|k: int| 0 <= k < i ==> #[trigger] idx@[k] < nw,
            decreases nw_b - i,
        {
            proof {
                lemma_ceil_below(i as int, (nw - start) as int, step as int);
            }
            idx.push(start + i * step);
            i = i + 1;
        }
        proof {
            lemma_ceil_below((nw - start) as int, (nw - start) as int, step as int);
            assert((nw - start) * step >= nw - start) by (nonlinear_arith)
                requires
                    step >= 1,
                    nw >= start,
            ;
        }
        let ghost before = wd@;
        if !decode_block(wd, erased, idx.as_slice(), nw_b - nd_b) {
            return false;
        }
        proof {
            assert(vals_at(wd@, idx@) =~= block_of(wd@, start as int, step as int, nw_b as int));
            assert(block_ok_sat(wd@, nd as int, nw as int, step as int, start as int));
            assert forall|s2: int| 0 <= s2 < start implies #[trigger] block_ok_sat(wd@, nd as int, nw as int, step as int, s2) by {
                let n2 = ceil_div(nw - s2, step as int);
                assert(block_ok_sat(before, nd as int, nw as int, step as int, s2));
                assert forall|k: int| 0 <= k < n2 implies block_of(wd@, s2, step as int, n2)[k] == block_of(before, s2, step as int, n2)[k] by {
                    lemma_residue(s2, k, step as int);
                    lemma_ceil_below(k, nw - s2, step as int);
                    let p = s2 + k * step;
                    if wd@[p] != before[p] {
                        let j = choose|j: int| 0 <= j < idx@.len() && #[trigger] idx@[j] == p;
                        lemma_residue(start as int, j, step as int);
                        assert(idx@[j] == start + j * step);
                    }
                }
                assert(block_of(wd@, s2, step as int, n2) =~= block_of(before, s2, step as int, n2));
            }
        }
        start = start + 1;
    }
    true
}

} // verus!
