//! GF(2^7) Reed–Solomon codes as used by Grid Matrix: primitive polynomial
//! `x^7 + x^3 + 1` (`0x89`), generator element `α = 2`, first consecutive root `α^1`.
//! Polynomials are coefficient vectors, most-significant coefficient first.
use vstd::prelude::*;
use crate::codes::hanxin::gf::{GaloisField, std_exps, std_logs, t_codeword, t_gen, t_lfsr, within_errors};

verus! {

/// Index of the first consecutive root of the RS generator polynomial (`α^1`).
pub const GENERATOR_BASE: usize = 1;

/// The Grid Matrix exponent table: `α^i` for `i < 127`.
pub open spec fn gm_exps() -> Seq<u8> {
    std_exps(0x89, 128)
}

/// The Grid Matrix logarithm table.
pub open spec fn gm_logs() -> Seq<u8> {
    std_logs(0x89, 128)
}

/// Every element is a 7-bit value.
pub open spec fn seven_bit(s: Seq<u8>) -> bool {
    forall|i: int| 0 <= i < s.len() ==> #[trigger] s[i] < 128
}

/// A Grid Matrix Reed–Solomon codeword with `nsym` check symbols.
pub open spec fn gm_codeword(c: Seq<u8>, nsym: int) -> bool {
    t_codeword(gm_exps(), gm_logs(), 127, c, nsym, 1)
}

/// The `nsym` check symbols of `data`.
pub open spec fn gm_check(data: Seq<u8>, nsym: nat) -> Seq<u8> {
    t_lfsr(gm_exps(), gm_logs(), 127, data, t_gen(gm_exps(), gm_logs(), 127, nsym, 1), nsym)
}

fn field() -> (f: GaloisField)
    ensures
        f.wf(),
        f.ord() == 127,
        f.size() == 128,
        f.exps() == gm_exps(),
        f.logs() == gm_logs(),
{
    assert(0x89u16 & 128u16 != 0 && 128usize & 127usize == 0) by (bit_vector);
    let f = GaloisField::new(0x89, 128);
    proof {
        f.lemma_built_from(0x89, 128);
        f.lemma_wf();
    }
    f
}

/// Compute the `nsym` Reed–Solomon check symbols for `data`: the remainder of
/// `data · x^nsym` divided by the generator polynomial, most-significant first.
pub fn encode(data: &[u8], nsym: usize) -> (rem: Vec<u8>)
    requires
        seven_bit(data@),
        1 <= nsym <= 0xffff,
    ensures
        rem@ == gm_check(data@, nsym as nat),
        rem@.len() == nsym,
        seven_bit(rem@),
{
    proof {
        lemma_check_len(data@, nsym as nat);
    }
    field().rs_encode(data, nsym, GENERATOR_BASE)
}

/// The check symbols number `nsym`.
pub proof fn lemma_check_len(data: Seq<u8>, nsym: nat)
    requires
        nsym >= 1,
    ensures
        gm_check(data, nsym).len() == nsym,
    decreases data.len(),
{
    if data.len() > 0 {
        lemma_check_len(data.drop_last(), nsym);
    }
}

/// Attempt to correct up to `nsym / 2` errors in `received` (data followed by check
/// symbols), returning the corrected block, or `None` where that fails.
pub fn decode(received: &[u8], nsym: usize) -> (res: Option<Vec<u8>>)
    requires
        seven_bit(received@),
        nsym <= 0xffff,
        received@.len() <= 0xffff,
    ensures
        gm_codeword(received@, nsym as int) ==> (res matches Some(c) && c@ == received@),
        res matches Some(c) ==> {
            &&& c@.len() == received@.len()
            &&& gm_codeword(c@, nsym as int)
            &&& within_errors(c@, received@, (nsym / 2) as int)
        },
{
    field().rs_decode(received, nsym, GENERATOR_BASE)
}

} // verus!
