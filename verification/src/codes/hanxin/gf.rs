//! Galois-field arithmetic and Reed–Solomon codes over a binary field GF(2^m).
//!
//! Han Xin uses two fields, so the field is built at run time from its primitive
//! polynomial:
//! - data codewords live in GF(2^8) with primitive polynomial `0x163`
//!   (`x^8 + x^6 + x^5 + x + 1`);
//! - function information lives in GF(2^4) with primitive polynomial `0x13`
//!   (`x^4 + x + 1`).
//!
//! Both use generator element `α = 2` and a first consecutive root of `α^1`.
//! Polynomials are most-significant coefficient first.
use vstd::prelude::*;

verus! {

/// Bits of a power of two stay below it under xor.
proof fn lemma_xor_below(a: u16, b: u16, s: u16)
    requires
        s != 0,
        s & ((s - 1) as u16) == 0,
        a < s,
        b < s,
    ensures
        a ^ b < s,
{
    assert(s != 0 && s & ((s - 1) as u16) == 0 && a < s && b < s ==> a ^ b < s) by (bit_vector);
}

/// One multiplication by `x` keeps the register below the field size.
proof fn lemma_xtime_below(x: u16, p: u16, s: u16)
    requires
        s != 0,
        s <= 256,
        s & ((s - 1) as u16) == 0,
        x < s,
        p < 2 * s,
        p & s != 0,
    ensures
        ((x << 1u16) & s != 0 ==> ((x << 1u16) ^ p) < s),
        ((x << 1u16) & s == 0 ==> (x << 1u16) < s),
{
    assert(s != 0 && s <= 256 && s & ((s - 1) as u16) == 0 && x < s && p < 2 * s && p & s != 0 ==>
        ((x << 1u16) & s != 0 ==> ((x << 1u16) ^ p) < s) && ((x << 1u16) & s == 0 ==> (x << 1u16) < s))
        by (bit_vector);
}

/// A binary Galois field GF(2^m) with a fixed primitive polynomial, as exponent and
/// logarithm tables.
#[derive(Debug, Clone)]
pub struct GaloisField {
    /// `exp[i] = α^i` for `i` in `0..order`.
    exp: Vec<u8>,
    /// `log[α^i] = i`.
    log: Vec<u8>,
    /// Multiplicative order of the field, `2^m - 1`.
    order: usize,
}

/// `α^i` as built by repeated multiplication by `x` modulo `primitive`.
pub open spec fn alpha_pow(primitive: u16, size: u16, i: nat) -> u16
    decreases i,
{
    if i == 0 {
        1
    } else {
        let x = alpha_pow(primitive, size, (i - 1) as nat) << 1u16;
        if x & size != 0 { x ^ primitive } else { x }
    }
}

/// The last exponent `i < n` with `α^i == x`, or 0 if there is none.
pub open spec fn last_log(primitive: u16, size: u16, x: int, n: nat) -> int
    decreases n,
{
    if n == 0 {
        0
    } else if alpha_pow(primitive, size, (n - 1) as nat) == x {
        n - 1
    } else {
        last_log(primitive, size, x, (n - 1) as nat)
    }
}

/// The exponent table of the field built from `primitive` of the given `size`.
pub open spec fn std_exps(primitive: u16, size: u16) -> Seq<u8> {
    Seq::new((size - 1) as nat, |i: int| alpha_pow(primitive, size, i as nat) as u8)
}

/// The logarithm table of the field built from `primitive` of the given `size`.
pub open spec fn std_logs(primitive: u16, size: u16) -> Seq<u8> {
    Seq::new(size as nat, |x: int| last_log(primitive, size, x, (size - 1) as nat) as u8)
}

/// `α^n` from exponent table `ex` of order `o`.
pub open spec fn t_exp(ex: Seq<u8>, o: int, n: int) -> u8 {
    ex[n % o]
}

/// Product through the tables.
pub open spec fn t_mul(ex: Seq<u8>, lg: Seq<u8>, o: int, a: u8, b: u8) -> u8 {
    if a == 0 || b == 0 { 0 } else { ex[(lg[a as int] + lg[b as int]) % o] }
}

/// Quotient through the tables.
pub open spec fn t_div(ex: Seq<u8>, lg: Seq<u8>, o: int, a: u8, b: u8) -> u8 {
    if a == 0 { 0 } else { ex[(lg[a as int] + o - lg[b as int]) % o] }
}

/// Horner evaluation of `c` (most-significant first) at `x`.
pub open spec fn t_eval(ex: Seq<u8>, lg: Seq<u8>, o: int, c: Seq<u8>, x: u8) -> u8
    decreases c.len(),
{
    if c.len() == 0 {
        0
    } else {
        t_mul(ex, lg, o, t_eval(ex, lg, o, c.drop_last(), x), x) ^ c.last()
    }
}

/// `c` evaluates to zero at `α^(fcr + i)` for every `i < nsym`.
pub open spec fn t_codeword(ex: Seq<u8>, lg: Seq<u8>, o: int, c: Seq<u8>, nsym: int, fcr: int) -> bool {
    forall|i: int| 0 <= i < nsym ==> #[trigger] t_eval(ex, lg, o, c, t_exp(ex, o, fcr + i)) == 0
}

/// Coefficient `k` of `a · b`: the xor over `i < n` of `a[i] · b[k - i]`.
pub open spec fn t_xsum(ex: Seq<u8>, lg: Seq<u8>, o: int, a: Seq<u8>, b: Seq<u8>, k: int, n: int) -> u8
    decreases n,
{
    if n <= 0 {
        0
    } else {
        t_xsum(ex, lg, o, a, b, k, n - 1) ^ (if 0 <= k - (n - 1) < b.len() { t_mul(ex, lg, o, a[n - 1], b[k - (n - 1)]) } else { 0u8 })
    }
}

/// The product of two polynomials.
pub open spec fn t_pmul(ex: Seq<u8>, lg: Seq<u8>, o: int, a: Seq<u8>, b: Seq<u8>) -> Seq<u8> {
    Seq::new((a.len() + b.len() - 1) as nat, |k: int| t_xsum(ex, lg, o, a, b, k, a.len() as int))
}

/// The generator polynomial `∏(x − α^(fcr+i))`, `i < nsym`.
pub open spec fn t_gen(ex: Seq<u8>, lg: Seq<u8>, o: int, nsym: nat, fcr: int) -> Seq<u8>
    decreases nsym,
{
    if nsym == 0 {
        seq![1u8]
    } else {
        t_pmul(ex, lg, o, t_gen(ex, lg, o, (nsym - 1) as nat, fcr), seq![1u8, t_exp(ex, o, fcr + nsym - 1)])
    }
}

/// One step of synthetic division of the running remainder by the generator.
pub open spec fn t_lfsr_step(ex: Seq<u8>, lg: Seq<u8>, o: int, rem: Seq<u8>, g: Seq<u8>, d: u8) -> Seq<u8> {
    let factor = d ^ rem[0];
    let shifted = rem.drop_first().push(0u8);
    if factor == 0 {
        shifted
    } else {
        Seq::new(shifted.len(), |i: int| shifted[i] ^ t_mul(ex, lg, o, g[i + 1], factor))
    }
}

/// The remainder of `data · x^nsym` by synthetic division by `g`.
pub open spec fn t_lfsr(ex: Seq<u8>, lg: Seq<u8>, o: int, data: Seq<u8>, g: Seq<u8>, nsym: nat) -> Seq<u8>
    decreases data.len(),
{
    if data.len() == 0 {
        Seq::new(nsym, |_i: int| 0u8)
    } else {
        t_lfsr_step(ex, lg, o, t_lfsr(ex, lg, o, data.drop_last(), g, nsym), g, data.last())
    }
}

impl GaloisField {
    /// The tables are those of the field built from `primitive` of the given `size`.
    pub closed spec fn built_from(&self, primitive: u16, size: u16) -> bool {
        &&& self.order == size - 1
        &&& self.exp@ == std_exps(primitive, size)
        &&& self.log@ == std_logs(primitive, size)
    }

    /// A field built from `primitive` has the standard tables.
    pub proof fn lemma_built_from(&self, primitive: u16, size: u16)
        requires
            self.built_from(primitive, size),
        ensures
            self.exps() == std_exps(primitive, size),
            self.logs() == std_logs(primitive, size),
            self.ord() == size - 1,
    {
    }

    /// The exponent table.
    pub closed spec fn exps(&self) -> Seq<u8> {
        self.exp@
    }

    /// The logarithm table.
    pub closed spec fn logs(&self) -> Seq<u8> {
        self.log@
    }

    /// The multiplicative order `2^m - 1`.
    pub closed spec fn ord(&self) -> int {
        self.order as int
    }

    /// The tables are consistent: `exp` has `order` entries below the field size,
    /// `log` one entry per field element, each a valid exponent.
    pub closed spec fn wf(&self) -> bool {
        &&& 1 <= self.order <= 255
        &&& ((self.order + 1) as usize) & self.order == 0
        &&& self.exp@.len() == self.order
        &&& self.log@.len() == self.order + 1
        &&& forall|i: int| 0 <= i < self.order ==> #[trigger] self.exp@[i] <= self.order
        &&& forall|j: int| 0 <= j <= self.order ==> #[trigger] self.log@[j] < self.order
    }

    /// The field size `2^m`.
    pub closed spec fn size(&self) -> int {
        self.order + 1
    }

    /// `α^n`.
    pub open spec fn exp_at(&self, n: int) -> u8 {
        t_exp(self.exps(), self.ord(), n)
    }

    /// Product of two field elements through the discrete logarithm.
    pub open spec fn gmul(&self, a: u8, b: u8) -> u8 {
        t_mul(self.exps(), self.logs(), self.ord(), a, b)
    }

    /// Quotient of two field elements through the discrete logarithm.
    pub open spec fn gdiv(&self, a: u8, b: u8) -> u8 {
        t_div(self.exps(), self.logs(), self.ord(), a, b)
    }

    /// Every element of `s` belongs to the field.
    pub open spec fn in_field(&self, s: Seq<u8>) -> bool {
        forall|i: int| 0 <= i < s.len() ==> #[trigger] s[i] < self.size()
    }

    /// Horner evaluation of `c` (most-significant first) at `x`.
    pub open spec fn eval(&self, c: Seq<u8>, x: u8) -> u8 {
        t_eval(self.exps(), self.logs(), self.ord(), c, x)
    }

    /// `c` evaluates to zero at `α^(fcr + i)` for every `i < nsym`.
    pub open spec fn is_codeword(&self, c: Seq<u8>, nsym: int, fcr: int) -> bool {
        t_codeword(self.exps(), self.logs(), self.ord(), c, nsym, fcr)
    }

    /// Facts implied by well-formedness.
    pub proof fn lemma_wf(&self)
        requires
            self.wf(),
        ensures
            1 <= self.ord() <= 255,
            self.size() == self.ord() + 1,
            self.exps().len() == self.ord(),
            self.logs().len() == self.size(),
            forall|i: int| 0 <= i < self.ord() ==> #[trigger] self.exps()[i] < self.size(),
            forall|j: int| 0 <= j < self.size() ==> #[trigger] self.logs()[j] < self.ord(),
    {
    }

    /// Build the field of the given `size` (`2^m`, e.g. 256 or 16) using `primitive`
    /// (the reduction polynomial including its high `x^m` bit, e.g. `0x163`).
    pub fn new(primitive: u16, size: usize) -> (f: Self)
        requires
            2 <= size <= 256,
            size & ((size - 1) as usize) == 0,
            primitive < 2 * size,
            primitive & (size as u16) != 0,
        ensures
            f.wf(),
            f.ord() == size - 1,
            f.built_from(primitive, size as u16),
            forall|i: int| 0 <= i < size - 1 ==> #[trigger] f.exps()[i] == alpha_pow(primitive, size as u16, i as nat),
    {
        let order = size - 1;
        let s16 = size as u16;
        proof {
            assert(s16 == size);
            assert(s16 & ((s16 - 1) as u16) == 0) by (bit_vector)
                requires
                    s16 as usize == size,
                    size & ((size - 1) as usize) == 0,
                    size <= 256,
            ;
        }
        let mut exp: Vec<u8> = Vec::new();
        let mut log: Vec<u8> = Vec::new();
        let mut j: usize = 0;
        while j < size
            invariant
                j <= size,
                log@.len() == j,
                forall|k: int| 0 <= k < j ==> #[trigger] log@[k] == 0,
            decreases size - j,
        {
            log.push(0);
            j = j + 1;
        }
        let mut x: u16 = 1;
        let mut i: usize = 0;
        while i < order
            invariant
                i <= order,
                order == size - 1,
                2 <= size <= 256,
                s16 == size,
                s16 & ((s16 - 1) as u16) == 0,
                primitive < 2 * size,
                primitive & s16 != 0,
                x < size,
                x == alpha_pow(primitive, s16, i as nat),
                exp@.len() == i,
                log@.len() == size,
                forall|k: int| 0 <= k < i ==> #[trigger] exp@[k] == alpha_pow(primitive, s16, k as nat),
                forall|k: int| 0 <= k < i ==> #[trigger] exp@[k] <= order,
                forall|k: int| 0 <= k < size ==> #[trigger] log@[k] == last_log(primitive, s16, k, i as nat),
                forall|k: int| 0 <= k < size ==> #[trigger] log@[k] < order,
            decreases order - i,
        {
            exp.push(x as u8);
            log.set(x as usize, i as u8);
            proof {
                lemma_xtime_below(x, primitive, s16);
            }
            let shifted = x << 1;
            x = if shifted & s16 != 0 { shifted ^ primitive } else { shifted };
            i = i + 1;
        }
        proof {
            assert(exp@ =~= std_exps(primitive, s16));
            assert(log@ =~= std_logs(primitive, s16));
        }
        GaloisField { exp, log, order }
    }

    /// The GF(2^8) field used for Han Xin data codewords (primitive `0x163`).
    pub fn data() -> (f: Self)
        ensures
            f.wf(),
            f.ord() == 255,
    {
        assert(0x163u16 & 256u16 != 0) by (bit_vector);
        assert(256usize & 255usize == 0) by (bit_vector);
        GaloisField::new(0x163, 256)
    }

    /// The GF(2^4) field used for Han Xin function information (primitive `0x13`).
    pub fn function() -> (f: Self)
        ensures
            f.wf(),
            f.ord() == 15,
    {
        assert(0x13u16 & 16u16 != 0) by (bit_vector);
        assert(16usize & 15usize == 0) by (bit_vector);
        GaloisField::new(0x13, 16)
    }

    /// `α^n` for any non-negative exponent.
    pub fn exp_of(&self, n: usize) -> (r: u8)
        requires
            self.wf(),
        ensures
            r == self.exp_at(n as int),
            r < self.size(),
    {
        self.exp[n % self.order]
    }

    /// Multiply two field elements.
    pub fn mul(&self, a: u8, b: u8) -> (r: u8)
        requires
            self.wf(),
            a < self.size(),
            b < self.size(),
        ensures
            r == self.gmul(a, b),
            r < self.size(),
    {
        if a == 0 || b == 0 {
            return 0;
        }
        let idx = (self.log[a as usize] as usize + self.log[b as usize] as usize) % self.order;
        self.exp[idx]
    }

    /// Divide `a` by `b`.
    pub fn div(&self, a: u8, b: u8) -> (r: u8)
        requires
            self.wf(),
            a < self.size(),
            b < self.size(),
            b != 0,
        ensures
            r == self.gdiv(a, b),
            r < self.size(),
    {
        if a == 0 {
            return 0;
        }
        let idx = (self.log[a as usize] as usize + self.order - self.log[b as usize] as usize) % self.order;
        self.exp[idx]
    }

    /// Multiplicative inverse of a non-zero element.
    pub fn inv(&self, a: u8) -> (r: u8)
        requires
            self.wf(),
            a < self.size(),
            a != 0,
        ensures
            r == self.gdiv(1, a),
            r < self.size(),
    {
        self.div(1, a)
    }

    /// `base` raised to a (possibly negative) integer power.
    pub fn pow(&self, base: u8, e: i32) -> (r: u8)
        requires
            self.wf(),
            base < self.size(),
        ensures
            r == (if base == 0 { 0 } else { self.exps()[(self.logs()[base as int] * ((e as int) % self.ord())) % self.ord()] }),
            r < self.size(),
    {
        if base == 0 {
            return 0;
        }
        let l = self.log[base as usize] as u32;
        let o = self.order as u32;
        let em: u32 = if e >= 0 {
            (e as u32) % o
        } else {
            let ne = (-(e as i64)) as u32;
            let r1 = ne % o;
            proof {
                lemma_neg_mod(e as int, ne as int, r1 as int, o as int);
            }
            (o - r1) % o
        };
        assert(l * em < 256 * 256) by (nonlinear_arith)
            requires
                l < 256,
                em < 256,
        ;
        let idx = (l * em) % o;
        self.exp[idx as usize]
    }
}

/// Euclidean residue of a negative number from the residue of its magnitude.
proof fn lemma_neg_mod(e: int, ne: int, r1: int, o: int)
    requires
        e < 0,
        ne == -e,
        o > 0,
        r1 == ne % o,
    ensures
        (o - r1) % o == e % o,
{
    let q = ne / o;
    assert(ne == q * o + r1) by (nonlinear_arith)
        requires
            o > 0,
            q == ne / o,
            r1 == ne % o,
    ;
    assert(e == (-q - 1) * o + (o - r1)) by (nonlinear_arith)
        requires
            ne == q * o + r1,
            e == -ne,
    ;
    if r1 == 0 {
        assert(e == (-q) * o + 0) by (nonlinear_arith)
            requires
                e == (-q - 1) * o + (o - r1),
                r1 == 0,
        ;
        vstd::arithmetic::div_mod::lemma_fundamental_div_mod_converse(e, o, -q, 0);
        assert((o - r1) % o == 0) by {
            vstd::arithmetic::div_mod::lemma_fundamental_div_mod_converse(o, o, 1, 0);
        }
    } else {
        vstd::arithmetic::div_mod::lemma_fundamental_div_mod_converse(e, o, -q - 1, o - r1);
        vstd::arithmetic::div_mod::lemma_small_mod((o - r1) as nat, o as nat);
    }
}


/// `x ^ 0 == x`.
proof fn lemma_xor_zero()
    ensures
        forall|x: u8| #[trigger] (x ^ 0u8) == x,
{
    assert(forall|x: u8| #[trigger] (x ^ 0u8) == x) by (bit_vector);
}

/// `c` differs from `r` in at most `t` positions.
pub open spec fn within_errors(c: Seq<u8>, r: Seq<u8>, t: int) -> bool {
    exists|ps: Seq<usize>|
        #![trigger ps.len()]
        ps.len() <= t && forall|i: int|
            0 <= i < c.len() && c[i] != r[i] ==> #[trigger] ps.contains(i as usize)
}

impl GaloisField {
    /// The xor of two field elements is a field element.
    pub proof fn lemma_xor_in_field(&self, a: u8, b: u8)
        requires
            self.wf(),
            a < self.size(),
            b < self.size(),
        ensures
            a ^ b < self.size(),
    {
        let o = self.order;
        let s = (o + 1) as u16;
        assert(s as usize == o + 1);
        assert(s & ((s - 1) as u16) == 0) by (bit_vector)
            requires
                s as usize == o + 1,
                ((o + 1) as usize) & o == 0,
                1 <= o <= 255,
        ;
        lemma_xor_below(a as u16, b as u16, s);
        assert((a as u16) ^ (b as u16) == (a ^ b) as u16) by (bit_vector);
    }

    /// Coefficient `k` of `a · b`: the xor over `i < n` of `a[i] · b[k - i]`.
    pub open spec fn xsum(&self, a: Seq<u8>, b: Seq<u8>, k: int, n: int) -> u8 {
        t_xsum(self.exps(), self.logs(), self.ord(), a, b, k, n)
    }

    /// The product of two polynomials.
    pub open spec fn pmul(&self, a: Seq<u8>, b: Seq<u8>) -> Seq<u8> {
        t_pmul(self.exps(), self.logs(), self.ord(), a, b)
    }

    /// The generator polynomial `∏(x − α^(fcr+i))`, `i < nsym`.
    pub open spec fn gen_poly(&self, nsym: nat, fcr: int) -> Seq<u8> {
        t_gen(self.exps(), self.logs(), self.ord(), nsym, fcr)
    }

    /// The generator polynomial has `nsym + 1` coefficients.
    pub proof fn lemma_gen_len(&self, nsym: nat, fcr: int)
        ensures
            self.gen_poly(nsym, fcr).len() == nsym + 1,
        decreases nsym,
    {
        if nsym > 0 {
            self.lemma_gen_len((nsym - 1) as nat, fcr);
        }
    }

    /// Multiply two polynomials (coefficients most-significant first).
    pub fn poly_mul(&self, a: &[u8], b: &[u8]) -> (out: Vec<u8>)
        requires
            self.wf(),
            self.in_field(a@),
            self.in_field(b@),
            a@.len() >= 1,
            b@.len() >= 1,
            a@.len() + b@.len() <= usize::MAX,
        ensures
            out@ == self.pmul(a@, b@),
            self.in_field(out@),
    {
        let n = a.len() + b.len() - 1;
        let mut out: Vec<u8> = Vec::new();
        let mut z: usize = 0;
        while z < n
            invariant
                z <= n,
                out@.len() == z,
                forall|k: int| 0 <= k < z ==> #[trigger] out@[k] == 0,
            decreases n - z,
        {
            out.push(0);
            z = z + 1;
        }
        proof {
            lemma_xor_zero();
        }
        let mut i: usize = 0;
        while i < a.len()
            invariant
                i <= a@.len(),
                n == a@.len() + b@.len() - 1,
                out@.len() == n,
                self.wf(),
                self.in_field(a@),
                self.in_field(b@),
                forall|k: int| 0 <= k < n ==> #[trigger] out@[k] == self.xsum(a@, b@, k, i as int),
                forall|k: int| 0 <= k < n ==> #[trigger] out@[k] < self.size(),
                forall|x: u8| #[trigger] (x ^ 0u8) == x,
            decreases a@.len() - i,
        {
            let ghost row = out@;
            let mut j: usize = 0;
            while j < b.len()
                invariant
                    i < a@.len(),
                    j <= b@.len(),
                    n == a@.len() + b@.len() - 1,
                    out@.len() == n,
                    row.len() == n,
                    self.wf(),
                    self.in_field(a@),
                    self.in_field(b@),
                    forall|k: int| 0 <= k < n ==> #[trigger] row[k] == self.xsum(a@, b@, k, i as int),
                    forall|k: int| 0 <= k < n ==> #[trigger] out@[k] == (if i <= k < i + j {
                        row[k] ^ self.gmul(a@[i as int], b@[k - i])
                    } else {
                        row[k]
                    }),
                    forall|k: int| 0 <= k < n ==> #[trigger] out@[k] < self.size(),
                decreases b@.len() - j,
            {
                let cur = out[i + j];
                let p = self.mul(a[i], b[j]);
                proof {
                    self.lemma_xor_in_field(cur, p);
                }
                out.set(i + j, cur ^ p);
                j = j + 1;
            }
            proof {
                assert forall|k: int| 0 <= k < n implies #[trigger] out@[k] == self.xsum(a@, b@, k, i + 1) by {
                    assert(self.xsum(a@, b@, k, i + 1) == self.xsum(a@, b@, k, i as int)
                        ^ (if 0 <= k - i < b@.len() { self.gmul(a@[i as int], b@[k - i]) } else { 0u8 }));
                }
            }
            i = i + 1;
        }
        proof {
            assert(out@ =~= self.pmul(a@, b@));
        }
        out
    }

    /// Reed–Solomon generator polynomial `∏(x − α^(fcr+i))` for `i` in `0..nsym`,
    /// most-significant coefficient first.
    pub fn generator(&self, nsym: usize, fcr: usize) -> (g: Vec<u8>)
        requires
            self.wf(),
            nsym <= 0xffff,
            fcr <= 0xffff,
        ensures
            g@ == self.gen_poly(nsym as nat, fcr as int),
            self.in_field(g@),
            g@.len() == nsym + 1,
    {
        let mut g: Vec<u8> = Vec::new();
        g.push(1);
        let mut i: usize = 0;
        while i < nsym
            invariant
                i <= nsym,
                nsym <= 0xffff,
                fcr <= 0xffff,
                self.wf(),
                g@ == self.gen_poly(i as nat, fcr as int),
                g@.len() == i + 1,
                self.in_field(g@),
            decreases nsym - i,
        {
            let r = self.exp_of(fcr + i);
            let factor = [1u8, r];
            proof {
                assert(factor@ =~= seq![1u8, self.exp_at(fcr + i)]);
            }
            g = self.poly_mul(g.as_slice(), &factor);
            i = i + 1;
            proof {
                self.lemma_gen_len(i as nat, fcr as int);
            }
        }
        g
    }

    /// One step of synthetic division of the running remainder by the generator.
    pub open spec fn lfsr_step(&self, rem: Seq<u8>, g: Seq<u8>, d: u8) -> Seq<u8> {
        t_lfsr_step(self.exps(), self.logs(), self.ord(), rem, g, d)
    }

    /// The remainder of `data · x^nsym` by synthetic division by `g`.
    pub open spec fn lfsr(&self, data: Seq<u8>, g: Seq<u8>, nsym: nat) -> Seq<u8> {
        t_lfsr(self.exps(), self.logs(), self.ord(), data, g, nsym)
    }

    /// Compute `nsym` Reed–Solomon EC codewords for `data`, most-significant first:
    /// the remainder of `data · x^nsym` modulo the generator polynomial.
    pub fn rs_encode(&self, data: &[u8], nsym: usize, fcr: usize) -> (rem: Vec<u8>)
        requires
            self.wf(),
            self.in_field(data@),
            1 <= nsym <= 0xffff,
            fcr <= 0xffff,
        ensures
            rem@ == self.lfsr(data@, self.gen_poly(nsym as nat, fcr as int), nsym as nat),
            self.in_field(rem@),
    {
        let gen_poly = self.generator(nsym, fcr);
        let ghost g = gen_poly@;
        let mut rem: Vec<u8> = Vec::new();
        let mut z: usize = 0;
        while z < nsym
            invariant
                z <= nsym,
                rem@ == Seq::new(z as nat, |_i: int| 0u8),
            decreases nsym - z,
        {
            rem.push(0);
            z = z + 1;
            proof {
                assert(rem@ =~= Seq::new(z as nat, |_i: int| 0u8));
            }
        }
        let mut t: usize = 0;
        while t < data.len()
            invariant
                t <= data@.len(),
                1 <= nsym <= 0xffff,
                self.wf(),
                self.in_field(data@),
                gen_poly@ == g,
                g.len() == nsym + 1,
                self.in_field(g),
                rem@.len() == nsym,
                self.in_field(rem@),
                rem@ == self.lfsr(data@.take(t as int), g, nsym as nat),
            decreases data@.len() - t,
        {
            let d = data[t];
            let factor = d ^ rem[0];
            proof {
                self.lemma_xor_in_field(d, rem@[0]);
                assert(data@.take(t + 1).drop_last() =~= data@.take(t as int));
            }
            let ghost before = rem@;
            rem.remove(0);
            rem.push(0);
            let ghost shifted = rem@;
            proof {
                assert(shifted =~= before.drop_first().push(0u8));
            }
            if factor != 0 {
                let mut i: usize = 1;
                while i < gen_poly.len()
                    invariant
                        1 <= i <= gen_poly@.len(),
                        gen_poly@ == g,
                        g.len() == nsym + 1,
                        self.wf(),
                        self.in_field(g),
                        factor < self.size(),
                        rem@.len() == nsym,
                        shifted.len() == nsym,
                        self.in_field(shifted),
                        forall|k: int| 0 <= k < nsym ==> #[trigger] rem@[k] == (if k < i - 1 {
                            shifted[k] ^ self.gmul(g[k + 1], factor)
                        } else {
                            shifted[k]
                        }),
                        self.in_field(rem@),
                    decreases gen_poly@.len() - i,
                {
                    let cur = rem[i - 1];
                    let p = self.mul(gen_poly[i], factor);
                    proof {
                        self.lemma_xor_in_field(cur, p);
                    }
                    rem.set(i - 1, cur ^ p);
                    i = i + 1;
                }
                proof {
                    assert(rem@ =~= self.lfsr_step(before, g, d));
                }
            }
            t = t + 1;
        }
        proof {
            assert(data@.take(data@.len() as int) =~= data@);
        }
        rem
    }
}


impl GaloisField {
    /// Horner evaluation of `c` at `x`.
    fn eval_at(&self, c: &[u8], x: u8) -> (r: u8)
        requires
            self.wf(),
            self.in_field(c@),
            x < self.size(),
        ensures
            r == self.eval(c@, x),
            r < self.size(),
    {
        let mut acc: u8 = 0;
        let mut i: usize = 0;
        while i < c.len()
            invariant
                i <= c@.len(),
                self.wf(),
                self.in_field(c@),
                x < self.size(),
                acc == self.eval(c@.take(i as int), x),
                acc < self.size(),
            decreases c@.len() - i,
        {
            let m = self.mul(acc, x);
            proof {
                self.lemma_xor_in_field(m, c@[i as int]);
                assert(c@.take(i + 1).drop_last() =~= c@.take(i as int));
            }
            acc = m ^ c[i];
            i = i + 1;
        }
        proof {
            assert(c@.take(c@.len() as int) =~= c@);
        }
        acc
    }

    /// Do all `nsym` syndromes of `c` vanish?
    fn syndromes_vanish(&self, c: &[u8], nsym: usize, fcr: usize) -> (ok: bool)
        requires
            self.wf(),
            self.in_field(c@),
            nsym <= 0xffff,
            fcr <= 0xffff,
        ensures
            ok == self.is_codeword(c@, nsym as int, fcr as int),
    {
        let mut i: usize = 0;
        while i < nsym
            invariant
                i <= nsym,
                nsym <= 0xffff,
                fcr <= 0xffff,
                self.wf(),
                self.in_field(c@),
                forall|j: int| 0 <= j < i ==> #[trigger] self.eval(c@, self.exp_at(fcr + j)) == 0,
            decreases nsym - i,
        {
            let x = self.exp_of(fcr + i);
            if self.eval_at(c, x) != 0 {
                return false;
            }
            i = i + 1;
        }
        proof {
            assert forall|j: int| 0 <= j < nsym implies #[trigger] t_eval(self.exps(), self.logs(), self.ord(), c@,
                t_exp(self.exps(), self.ord(), fcr + j)) == 0 by {
                assert(self.eval(c@, self.exp_at(fcr + j)) == 0);
            }
        }
        true
    }

    /// `dst ← dst − scale · x^shift · src`, all least-significant first.
    fn sub_shift(&self, dst: &mut Vec<u8>, src: &[u8], scale: u8, shift: usize)
        requires
            self.wf(),
            self.in_field(old(dst)@),
            self.in_field(src@),
            scale < self.size(),
            src@.len() + shift <= usize::MAX,
        ensures
            self.in_field(final(dst)@),
            final(dst)@.len() == (if old(dst)@.len() < src@.len() + shift { src@.len() + shift } else { old(dst)@.len() as int }),
    {
        let needed = src.len() + shift;
        while dst.len() < needed
            invariant
                self.wf(),
                self.in_field(dst@),
                old(dst)@.len() <= dst@.len() <= (if old(dst)@.len() < needed { needed as int } else { old(dst)@.len() as int }),
            decreases needed - dst@.len(),
        {
            dst.push(0);
        }
        let mut i: usize = 0;
        while i < src.len()
            invariant
                i <= src@.len(),
                needed == src@.len() + shift,
                dst@.len() >= needed,
                dst@.len() == (if old(dst)@.len() < needed { needed as int } else { old(dst)@.len() as int }),
                self.wf(),
                self.in_field(dst@),
                self.in_field(src@),
                scale < self.size(),
            decreases src@.len() - i,
        {
            let cur = dst[i + shift];
            let m = self.mul(scale, src[i]);
            proof {
                self.lemma_xor_in_field(cur, m);
            }
            dst.set(i + shift, cur ^ m);
            i = i + 1;
        }
    }

    /// A copy of `s`.
    fn copy_block(s: &[u8]) -> (v: Vec<u8>)
        ensures
            v@ == s@,
    {
        let mut v: Vec<u8> = Vec::new();
        let mut i: usize = 0;
        while i < s.len()
            invariant
                i <= s@.len(),
                v@ == s@.take(i as int),
            decreases s@.len() - i,
        {
            v.push(s[i]);
            i = i + 1;
            proof {
                assert(v@ =~= s@.take(i as int));
            }
        }
        proof {
            assert(s@.take(s@.len() as int) =~= s@);
        }
        v
    }

    /// Attempt to correct up to `nsym / 2` errors in `received` (data followed by EC
    /// codewords), returning the corrected block, or `None` if uncorrectable.
    ///
    /// Syndrome + Berlekamp–Massey + Chien + Forney, parameterised by the first
    /// consecutive root `fcr`.
    #[verifier::loop_isolation(false)]
    pub fn rs_decode(&self, received: &[u8], nsym: usize, fcr: usize) -> (res: Option<Vec<u8>>)
        requires
            self.wf(),
            self.in_field(received@),
            nsym <= 0xffff,
            fcr <= 0xffff,
            received@.len() <= 0xffff,
        ensures
            self.is_codeword(received@, nsym as int, fcr as int) ==> (res matches Some(c) && c@ == received@),
            res matches Some(c) ==> {
                &&& c@.len() == received@.len()
                &&& self.is_codeword(c@, nsym as int, fcr as int)
                &&& within_errors(c@, received@, (nsym / 2) as int)
            },
    {
        let n = received.len();
        // Syndromes S_i = R(α^(fcr+i)).
        let mut syn: Vec<u8> = Vec::new();
        let mut all_zero = true;
        let mut i: usize = 0;
        while i < nsym
            invariant
                i <= nsym,
                syn@.len() == i,
                self.in_field(syn@),
                all_zero <==> forall|j: int| 0 <= j < i ==> #[trigger] self.eval(received@, self.exp_at(fcr + j)) == 0,
            decreases nsym - i,
        {
            let x = self.exp_of(fcr + i);
            let acc = self.eval_at(received, x);
            syn.push(acc);
            if acc != 0 {
                all_zero = false;
            }
            i = i + 1;
        }
        if all_zero {
            let c = Self::copy_block(received);
            proof {
                assert forall|j: int| 0 <= j < nsym implies #[trigger] t_eval(self.exps(), self.logs(), self.ord(), c@,
                    t_exp(self.exps(), self.ord(), fcr + j)) == 0 by {
                    assert(self.eval(received@, self.exp_at(fcr + j)) == 0);
                }
                let ps = Seq::<usize>::empty();
                assert(ps.len() <= nsym / 2 && forall|i: int|
                    0 <= i < c@.len() && c@[i] != received@[i] ==> #[trigger] ps.contains(i as usize));
            }
            return Some(c);
        }

        // Berlekamp–Massey (Λ least-significant-first, Λ_0 = 1).
        let mut sigma: Vec<u8> = vec![1u8];
        let mut prev: Vec<u8> = vec![1u8];
        let mut l: usize = 0;
        let mut m: usize = 1;
        let mut b: u8 = 1;
        let mut it: usize = 0;
        while it < nsym
            invariant
                it <= nsym,
                syn@.len() == nsym,
                self.in_field(syn@),
                1 <= sigma@.len() <= it + 1,
                self.in_field(sigma@),
                1 <= prev@.len(),
                1 <= m,
                prev@.len() + m <= it + 2,
                self.in_field(prev@),
                l <= it,
                b < self.size(),
                b != 0,
            decreases nsym - it,
        {
            let mut delta = syn[it];
            let mut j: usize = 1;
            while j <= l
                invariant
                    1 <= j <= l + 1,
                    l <= it,
                    it < nsym,
                    syn@.len() == nsym,
                    self.in_field(syn@),
                    self.in_field(sigma@),
                    delta < self.size(),
                decreases l + 1 - j,
            {
                if j < sigma.len() {
                    let p = self.mul(sigma[j], syn[it - j]);
                    proof {
                        self.lemma_xor_in_field(delta, p);
                    }
                    delta = delta ^ p;
                }
                j = j + 1;
            }
            if delta == 0 {
                m = m + 1;
            } else if 2 * l <= it {
                let t = Self::copy_block(sigma.as_slice());
                let scale = self.div(delta, b);
                self.sub_shift(&mut sigma, prev.as_slice(), scale, m);
                l = it + 1 - l;
                prev = t;
                b = delta;
                m = 1;
            } else {
                let scale = self.div(delta, b);
                self.sub_shift(&mut sigma, prev.as_slice(), scale, m);
                m = m + 1;
            }
            it = it + 1;
        }

        while sigma.len() > 1 && sigma[sigma.len() - 1] == 0
            invariant
                1 <= sigma@.len(),
                self.in_field(sigma@),
            decreases sigma@.len(),
        {
            sigma.pop();
        }
        let num_errors = sigma.len() - 1;
        if num_errors > nsym / 2 || num_errors == 0 {
            return None;
        }

        // Chien search: Λ(α^-j) = 0 → error at received index n-1-j.
        let mut positions: Vec<usize> = Vec::new();
        let mut jj: usize = 0;
        while jj < n
            invariant
                jj <= n,
                n == received@.len(),
                positions@.len() <= jj,
                forall|q: int| 0 <= q < positions@.len() ==> #[trigger] positions@[q] < n,
                self.in_field(sigma@),
            decreases n - jj,
        {
            let x_inv = self.exp_of((self.order - (jj % self.order)) % self.order);
            let mut val: u8 = 0;
            let mut pw: u8 = 1;
            let mut c: usize = 0;
            while c < sigma.len()
                invariant
                    c <= sigma@.len(),
                    self.in_field(sigma@),
                    val < self.size(),
                    pw < self.size(),
                    x_inv < self.size(),
                decreases sigma@.len() - c,
            {
                let p = self.mul(sigma[c], pw);
                proof {
                    self.lemma_xor_in_field(val, p);
                }
                val = val ^ p;
                pw = self.mul(pw, x_inv);
                c = c + 1;
            }
            if val == 0 {
                positions.push(n - 1 - jj);
            }
            jj = jj + 1;
        }
        if positions.len() != num_errors {
            return None;
        }

        // Forney: Ω(x) = [S(x)·Λ(x)] mod x^nsym (both least-significant first).
        let mut omega: Vec<u8> = Vec::new();
        let mut z: usize = 0;
        while z < nsym
            invariant
                z <= nsym,
                omega@.len() == z,
                self.in_field(omega@),
            decreases nsym - z,
        {
            omega.push(0);
            z = z + 1;
        }
        let mut si: usize = 0;
        while si < nsym
            invariant
                si <= nsym,
                omega@.len() == nsym,
                syn@.len() == nsym,
                self.in_field(omega@),
                self.in_field(syn@),
                self.in_field(sigma@),
            decreases nsym - si,
        {
            let sv = syn[si];
            let mut k: usize = 0;
            while k < sigma.len()
                invariant
                    k <= sigma@.len(),
                    si < nsym,
                    omega@.len() == nsym,
                    self.in_field(omega@),
                    self.in_field(sigma@),
                    sv < self.size(),
                decreases sigma@.len() - k,
            {
                if si + k < nsym {
                    let cur = omega[si + k];
                    let p = self.mul(sv, sigma[k]);
                    proof {
                        self.lemma_xor_in_field(cur, p);
                    }
                    omega.set(si + k, cur ^ p);
                }
                k = k + 1;
            }
            si = si + 1;
        }

        let mut corrected = Self::copy_block(received);
        let mut q: usize = 0;
        while q < positions.len()
            invariant
                q <= positions@.len(),
                n == received@.len(),
                corrected@.len() == n,
                self.in_field(corrected@),
                self.in_field(omega@),
                self.in_field(sigma@),
                forall|qq: int| 0 <= qq < positions@.len() ==> #[trigger] positions@[qq] < n,
                forall|i: int|
                    0 <= i < n && corrected@[i] != received@[i] ==> exists|w: int|
                        0 <= w < q && #[trigger] positions@[w] == i as usize,
            decreases positions@.len() - q,
        {
            let pos = positions[q];
            let p = n - 1 - pos;
            let x = self.exp_of(p % self.order);
            if x == 0 {
                return None;
            }
            let x_inv = self.inv(x);
            let mut omega_val: u8 = 0;
            let mut pw: u8 = 1;
            let mut c: usize = 0;
            while c < omega.len()
                invariant
                    c <= omega@.len(),
                    self.in_field(omega@),
                    omega_val < self.size(),
                    pw < self.size(),
                    x_inv < self.size(),
                decreases omega@.len() - c,
            {
                let t = self.mul(omega[c], pw);
                proof {
                    self.lemma_xor_in_field(omega_val, t);
                }
                omega_val = omega_val ^ t;
                pw = self.mul(pw, x_inv);
                c = c + 1;
            }
            // Λ'(X^-1): the GF(2) derivative keeps odd-degree terms.
            let mut deriv: u8 = 0;
            let mut pw2: u8 = 1;
            let x_inv2 = self.mul(x_inv, x_inv);
            let mut k: usize = 0;
            while k < sigma.len()
                invariant
                    k <= sigma@.len(),
                    self.in_field(sigma@),
                    deriv < self.size(),
                    pw2 < self.size(),
                    x_inv2 < self.size(),
                decreases sigma@.len() - k,
            {
                if k % 2 == 1 {
                    let t = self.mul(sigma[k], pw2);
                    proof {
                        self.lemma_xor_in_field(deriv, t);
                    }
                    deriv = deriv ^ t;
                    pw2 = self.mul(pw2, x_inv2);
                }
                k = k + 1;
            }
            if deriv == 0 {
                return None;
            }
            // e = X^(1-fcr) · Ω(X^-1) / Λ'(X^-1).
            let scale = self.pow(x, 1 - fcr as i32);
            let mag = self.mul(scale, self.div(omega_val, deriv));
            let cur = corrected[pos];
            proof {
                self.lemma_xor_in_field(cur, mag);
            }
            corrected.set(pos, cur ^ mag);
            proof {
                assert forall|i: int| 0 <= i < n && corrected@[i] != received@[i] implies exists|w: int|
                    0 <= w < q + 1 && #[trigger] positions@[w] == i as usize by {
                    if i == pos as int {
                        assert(positions@[q as int] == pos);
                    }
                }
            }
            q = q + 1;
        }

        // Verify the correction satisfies every syndrome.
        if !self.syndromes_vanish(corrected.as_slice(), nsym, fcr) {
            return None;
        }
        proof {
            assert forall|i: int|
                0 <= i < corrected@.len() && corrected@[i] != received@[i] implies #[trigger] positions@.contains(i as usize) by {
                let w = choose|w: int| 0 <= w < positions@.len() && #[trigger] positions@[w] == i as usize;
                assert(positions@[w] == i as usize);
            }
            assert(positions@.len() <= nsym / 2);
        }
        Some(corrected)
    }
}

} // verus!
