//! GF(64) arithmetic and Reed–Solomon codes as used by MaxiCode (ISO/IEC 16023).
//!
//! The field is GF(2^6) with primitive polynomial `x^6 + x + 1` (`0x43`) and
//! generator element `α = 2`. MaxiCode's Reed–Solomon generator polynomial has its
//! first consecutive root at `α^1`. Polynomials are coefficient vectors,
//! most-significant coefficient first.
use vstd::prelude::*;
use crate::codes::hanxin::gf::{
    GaloisField, std_exps, std_logs, t_codeword, t_div, t_exp, t_gen, t_lfsr, t_mul, within_errors,
};

verus! {

/// Primitive polynomial for the MaxiCode field (`x^6 + x + 1`), with the `x^6` bit.
pub const PRIMITIVE: u16 = 0x43;

/// Index of the first consecutive root of the RS generator polynomial (`α^1`).
pub const GENERATOR_BASE: usize = 1;

/// Number of non-zero field elements (the multiplicative order), `2^6 - 1`.
pub const ORDER: usize = 63;

/// The MaxiCode exponent table: `α^i` for `i < 63`.
pub open spec fn maxi_exps() -> Seq<u8> {
    std_exps(0x43, 64)
}

/// The MaxiCode logarithm table.
pub open spec fn maxi_logs() -> Seq<u8> {
    std_logs(0x43, 64)
}

/// The MaxiCode field.
fn field() -> (f: GaloisField)
    ensures
        f.wf(),
        f.ord() == 63,
        f.size() == 64,
        f.exps() == maxi_exps(),
        f.logs() == maxi_logs(),
{
    assert(0x43u16 & 64u16 != 0 && 64usize & 63usize == 0) by (bit_vector);
    let f = GaloisField::new(0x43, 64);
    proof {
        f.lemma_built_from(0x43, 64);
        f.lemma_wf();
    }
    f
}

/// Every element is a 6-bit value.
pub open spec fn six_bit(s: Seq<u8>) -> bool {
    forall|i: int| 0 <= i < s.len() ==> #[trigger] s[i] < 64
}

/// Multiply two field elements.
pub fn mul(a: u8, b: u8) -> (r: u8)
    requires
        a < 64,
        b < 64,
    ensures
        r == t_mul(maxi_exps(), maxi_logs(), 63, a, b),
        r < 64,
{
    field().mul(a, b)
}

/// Divide `a` by `b`.
pub fn div(a: u8, b: u8) -> (r: u8)
    requires
        a < 64,
        b < 64,
        b != 0,
    ensures
        r == t_div(maxi_exps(), maxi_logs(), 63, a, b),
        r < 64,
{
    field().div(a, b)
}

/// `α^n` for any non-negative exponent.
pub fn exp(n: usize) -> (r: u8)
    ensures
        r == t_exp(maxi_exps(), 63, n as int),
        r < 64,
{
    field().exp_of(n)
}

/// Multiplicative inverse of a non-zero element.
pub fn inv(a: u8) -> (r: u8)
    requires
        0 < a < 64,
    ensures
        r == t_div(maxi_exps(), maxi_logs(), 63, 1, a),
        r < 64,
{
    div(1, a)
}

/// The Reed–Solomon generator polynomial of degree `ec_len`,
/// `∏(x - α^i)` for `i` in `1..1 + ec_len`.
pub fn generator(ec_len: usize) -> (g: Vec<u8>)
    requires
        ec_len <= 0xffff,
    ensures
        g@ == t_gen(maxi_exps(), maxi_logs(), 63, ec_len as nat, 1),
        g@.len() == ec_len + 1,
        six_bit(g@),
{
    field().generator(ec_len, GENERATOR_BASE)
}

/// Compute the `ec_len` Reed–Solomon check symbols for `data`: the remainder of
/// `data · x^ec_len` divided by the generator polynomial, most-significant first.
pub fn encode(data: &[u8], ec_len: usize) -> (rem: Vec<u8>)
    requires
        six_bit(data@),
        1 <= ec_len <= 0xffff,
    ensures
        rem@ == t_lfsr(maxi_exps(), maxi_logs(), 63, data@,
            t_gen(maxi_exps(), maxi_logs(), 63, ec_len as nat, 1), ec_len as nat),
        six_bit(rem@),
{
    field().rs_encode(data, ec_len, GENERATOR_BASE)
}

/// Attempt to correct up to `ec_len / 2` errors in `received` (data followed by EC
/// symbols), returning the corrected full block, or `None` if the errors exceed the
/// correction capacity.
pub fn decode(received: &[u8], ec_len: usize) -> (res: Option<Vec<u8>>)
    requires
        six_bit(received@),
        ec_len <= 0xffff,
        received@.len() <= 0xffff,
    ensures
        t_codeword(maxi_exps(), maxi_logs(), 63, received@, ec_len as int, 1) ==> (res matches Some(c) && c@ == received@),
        res matches Some(c) ==> {
            &&& c@.len() == received@.len()
            &&& t_codeword(maxi_exps(), maxi_logs(), 63, c@, ec_len as int, 1)
            &&& within_errors(c@, received@, (ec_len / 2) as int)
        },
{
    field().rs_decode(received, ec_len, GENERATOR_BASE)
}

} // verus!
