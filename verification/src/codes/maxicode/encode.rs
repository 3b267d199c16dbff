//! MaxiCode data encodation: bytes → a data-codeword body, by a latch-based
//! code-set state machine padded to the mode's length; and the Structured Carrier
//! fields of modes 2 and 3.
use vstd::prelude::*;
use vstd::string::StringSliceAdditionalSpecFns;
use crate::codes::maxicode::decode::{body_segs_ok, decode_body, decode_body_spec, seg_views};
use crate::segment::copy_bytes;
use crate::codes::maxicode::tables::{set_entry, value_in_set, Cw, pos_from};
use crate::codes::maxicode::{Carrier, MaxiCodeMeta};
use crate::error::Error;
use crate::symbol::{Symbol, SymbolMeta};
use crate::symbology::Symbology;

verus! {

/// Code Set A.
pub const SET_A: usize = 0;
/// Code Set B.
pub const SET_B: usize = 1;
/// Code Set C.
pub const SET_C: usize = 2;
/// Code Set D.
pub const SET_D: usize = 3;
/// Code Set E.
pub const SET_E: usize = 4;

/// Data codewords a mode's body holds: the secondary message of modes 2/3 (84), and
/// for modes 4–6 the nine primary data codewords plus the secondary (84, or 68 with
/// enhanced error correction in mode 5).
pub open spec fn body_len_spec(mode: u8) -> int {
    if mode == 2 || mode == 3 {
        84
    } else if mode == 5 {
        77
    } else {
        93
    }
}

/// Data codewords a mode's body holds.
pub fn body_len(mode: u8) -> (n: usize)
    ensures
        n == body_len_spec(mode),
{
    if mode == 2 || mode == 3 {
        84
    } else if mode == 5 {
        77
    } else {
        93
    }
}

/// Byte `b` has a code in set `s`.
pub open spec fn in_set(s: int, b: u8) -> bool {
    exists|v: int| 0 <= v < 64 && set_entry(s, v) == Cw::Byte(b)
}

/// The first code set, in the order A, B, E, C, D, that has a code for `byte`.
pub open spec fn pick_set(byte: u8) -> Option<usize> {
    if pos_from(SET_A as int, byte, 0) is Some {
        Some(SET_A)
    } else if pos_from(SET_B as int, byte, 0) is Some {
        Some(SET_B)
    } else if pos_from(SET_E as int, byte, 0) is Some {
        Some(SET_E)
    } else if pos_from(SET_C as int, byte, 0) is Some {
        Some(SET_C)
    } else if pos_from(SET_D as int, byte, 0) is Some {
        Some(SET_D)
    } else {
        None
    }
}

/// Pick a code set that can encode `byte`, in the order A, B, E, C, D (the sets with
/// a no-op pad symbol first).
pub fn choose_set(byte: u8) -> (r: Option<usize>)
    ensures
        r matches Some(s) ==> s < 5 && in_set(s as int, byte),
        r is None ==> forall|s: int| 0 <= s < 5 ==> !in_set(s, byte),
        r == pick_set(byte),
{
    let order: [usize; 5] = [SET_A, SET_B, SET_E, SET_C, SET_D];
    let mut k: usize = 0;
    while k < 5
        invariant
            k <= 5,
            order@ == seq![0usize, 1usize, 4usize, 2usize, 3usize],
            forall|j: int| 0 <= j < k ==> !in_set(order@[j] as int, byte),
            forall|j: int| 0 <= j < k ==> pos_from(#[trigger] order@[j] as int, byte, 0) is None,
        decreases 5 - k,
    {
        let s = order[k];
        match value_in_set(s, byte) {
            Some(v) => {
                assert(set_entry(s as int, v as int) == Cw::Byte(byte));
                return Some(s);
            },
            None => {},
        }
        k = k + 1;
    }
    proof {
        assert forall|s: int| 0 <= s < 5 implies !in_set(s, byte) by {
            if s == 0 {
                assert(order@[0] == 0);
            } else if s == 1 {
                assert(order@[1] == 1);
            } else if s == 4 {
                assert(order@[2] == 4);
            } else if s == 2 {
                assert(order@[3] == 2);
            } else {
                assert(order@[4] == 3);
            }
        }
    }
    None
}

/// The latch codeword(s) from set `from` to set `to`.
pub open spec fn latch_codes(from: usize, to: usize) -> Seq<u8> {
    if to == SET_A {
        seq![if from == SET_B { 63u8 } else { 58u8 }]
    } else if to == SET_B {
        seq![63u8]
    } else if to == SET_C {
        seq![60u8, 60u8]
    } else if to == SET_D {
        seq![61u8, 61u8]
    } else {
        seq![62u8, 62u8]
    }
}

/// The codewords for `data[i..]` starting in set `state`, and the set the run ends
/// in: each byte in the current set if it has a code there, else after a latch to
/// the first set (A, B, E, C, D) that has one; `None` when some byte has no code.
pub open spec fn body_run(data: Seq<u8>, i: int, state: usize) -> Option<(Seq<u8>, usize)>
    decreases data.len() - i,
{
    if i < 0 || i >= data.len() {
        Some((Seq::empty(), state))
    } else {
        let b = data[i];
        match pos_from(state as int, b, 0) {
            Some(v) => match body_run(data, i + 1, state) {
                Some((r, st)) => Some((seq![v] + r, st)),
                None => None,
            },
            None => match pick_set(b) {
                None => None,
                Some(t) => match pos_from(t as int, b, 0) {
                    None => None,
                    Some(v) => match body_run(data, i + 1, t) {
                        Some((r, st)) => Some((latch_codes(state, t) + seq![v] + r, st)),
                        None => None,
                    },
                },
            },
        }
    }
}

/// The full body for `data` in `mode`: the run's codewords, a latch back to A if
/// the run ends in C or D, then the pad symbol of the final set (E's, or A's) up to
/// `body_len_spec(mode)`; `InvalidData` for a byte no set holds, `Capacity` when the
/// codewords exceed the body.
pub open spec fn body_spec(data: Seq<u8>, mode: u8) -> Result<Seq<u8>, Error> {
    match body_run(data, 0, SET_A) {
        None => Err(Error::InvalidData),
        Some((codes, st)) => {
            let closed = if st == SET_C || st == SET_D { codes.push(58u8) } else { codes };
            let fin = if st == SET_C || st == SET_D { SET_A } else { st };
            let pad: u8 = if fin == SET_E { 28 } else { 33 };
            if closed.len() > body_len_spec(mode) {
                Err(Error::Capacity)
            } else {
                Ok(closed + Seq::new((body_len_spec(mode) - closed.len()) as nat, |k: int| pad))
            }
        },
    }
}

/// Emit the latch codeword(s) from set `from` to set `to`: latching into C, D or E
/// is a shift immediately followed by that set's LOCK.
pub fn emit_latch(out: &mut Vec<u8>, from: usize, to: usize)
    requires
        to < 5,
        forall|k: int| 0 <= k < old(out)@.len() ==> #[trigger] old(out)@[k] < 64,
    ensures
        final(out)@ == old(out)@ + latch_codes(from, to),
        forall|k: int| 0 <= k < final(out)@.len() ==> #[trigger] final(out)@[k] < 64,
        final(out)@.len() == old(out)@.len() + (if to <= 1 { 1int } else { 2int }),
{
    if to == SET_A {
        out.push(if from == SET_B { 63 } else { 58 });
    } else if to == SET_B {
        out.push(63);
    } else if to == SET_C {
        out.push(60);
        out.push(60);
    } else if to == SET_D {
        out.push(61);
        out.push(61);
    } else {
        out.push(62);
        out.push(62);
    }
}

/// Encode `data` into a full body of `body_len(mode)` codewords: each byte is coded
/// in the current set, or after a latch to the first set (A, B, E, C, D) that has it;
/// C and D are left for A before padding, which is A's (or E's) pad symbol.
pub fn encode_body(data: &[u8], mode: u8) -> (r: Result<Vec<u8>, Error>)
    ensures
        r matches Ok(out) ==> out@.len() == body_len_spec(mode) && forall|k: int| 0 <= k < out@.len()
            ==> #[trigger] out@[k] < 64,
        r matches Err(e) ==> e == Error::InvalidData || e == Error::Capacity,
        data@.len() > 2 * body_len_spec(mode) + 2 ==> r is Err,
        match body_spec(data@, mode) {
            Ok(s) => r is Ok && r->Ok_0@ == s,
            Err(e) => r == Err::<Vec<u8>, Error>(e),
        },
{
    let cap = body_len(mode);
    let mut out: Vec<u8> = Vec::new();
    let mut state: usize = SET_A;
    let mut i: usize = 0;
    while i < data.len()
        invariant
            i <= data@.len(),
            state < 5,
            out@.len() >= i,
            forall|k: int| 0 <= k < out@.len() ==> #[trigger] out@[k] < 64,
            match body_run(data@, i as int, state) {
                Some((r, st)) => body_run(data@, 0, SET_A) == Some((out@ + r, st)),
                None => body_run(data@, 0, SET_A) is None,
            },
        decreases data@.len() - i,
    {
        let b = data[i];
        let ghost before = out@;
        let ghost st0 = state;
        match value_in_set(state, b) {
            Some(v) => {
                push_code(&mut out, v);
            },
            None => {
                let target = match choose_set(b) {
                    Some(t) => t,
                    None => {
                        return Err(Error::InvalidData);
                    },
                };
                emit_latch(&mut out, state, target);
                match value_in_set(target, b) {
                    Some(v) => {
                        push_code(&mut out, v);
                    },
                    None => {
                        return Err(Error::InvalidData);
                    },
                }
                state = target;
            },
        }
        i = i + 1;
        proof {
            match body_run(data@, i as int, state) {
                Some((r, st)) => {
                    assert(before + (out@.subrange(before.len() as int, out@.len() as int) + r) =~= out@ + r);
                    assert(out@ =~= before + out@.subrange(before.len() as int, out@.len() as int));
                },
                None => {},
            }
        }
    }
    proof {
        assert(out@ + Seq::<u8>::empty() =~= out@);
    }
    let ghost run_codes = out@;
    let ghost run_state = state;
    if state == SET_C || state == SET_D {
        out.push(58);
        state = SET_A;
    }
    if out.len() > cap {
        return Err(Error::Capacity);
    }
    let pad: u8 = if state == SET_E { 28 } else { 33 };
    let ghost closed = out@;
    while out.len() < cap
        invariant
            out@.len() <= cap,
            closed.len() <= out@.len(),
            pad < 64,
            forall|k: int| 0 <= k < out@.len() ==> #[trigger] out@[k] < 64,
            out@ == closed + Seq::new((out@.len() - closed.len()) as nat, |k: int| pad),
        decreases cap - out@.len(),
    {
        out.push(pad);
        assert(out@ =~= closed + Seq::new((out@.len() - closed.len()) as nat, |k: int| pad));
    }
    Ok(out)
}

/// Append one codeword value (0–63).
fn push_code(out: &mut Vec<u8>, v: u8)
    requires
        v < 64,
        forall|k: int| 0 <= k < old(out)@.len() ==> #[trigger] old(out)@[k] < 64,
    ensures
        forall|k: int| 0 <= k < final(out)@.len() ==> #[trigger] final(out)@[k] < 64,
        final(out)@.len() == old(out)@.len() + 1,
        final(out)@ == old(out)@.push(v),
{
    out.push(v);
}

/// An ASCII decimal digit.
pub open spec fn is_digit(b: u8) -> bool {
    48 <= b <= 57
}

/// A byte with ASCII lower case letters raised to upper case.
pub open spec fn upper(b: u8) -> u8 {
    if 97 <= b <= 122 {
        (b - 32) as u8
    } else {
        b
    }
}

/// The Structured Carrier postcode for `mode`: mode 2 takes one to nine digits as
/// given; mode 3 at most six characters, upper-cased, each in Code Set A,
/// space-padded to six. Any other mode, or a country code or service class above
/// 999, is a bad parameter.
pub open spec fn carrier_spec(mode: u8, postcode: Seq<u8>, country: u16, service: u16) -> Result<Seq<u8>, Error> {
    if !(mode == 2 || mode == 3) {
        Err(Error::InvalidParameter)
    } else if country > 999 || service > 999 {
        Err(Error::InvalidParameter)
    } else if mode == 2 {
        if postcode.len() == 0 || postcode.len() > 9 || exists|k: int|
            0 <= k < postcode.len() && !is_digit(#[trigger] postcode[k]) {
            Err(Error::InvalidData)
        } else {
            Ok(postcode)
        }
    } else {
        let up = postcode.map_values(|b: u8| upper(b));
        if postcode.len() > 6 {
            Err(Error::InvalidData)
        } else if exists|k: int| 0 <= k < up.len() && #[trigger] pos_from(0, up[k], 0) is None {
            Err(Error::InvalidData)
        } else {
            Ok(up + Seq::new((6 - up.len()) as nat, |k: int| 32u8))
        }
    }
}

/// Check and normalise a Structured Carrier primary message.
fn normalize_carrier(mode: u8, postcode: &str, country: u16, service: u16) -> (r: Result<Carrier, Error>)
    ensures
        match carrier_spec(mode, postcode.spec_bytes(), country, service) {
            Ok(p) => r matches Ok(c) && c.postcode@ == p && c.country == country && c.service == service,
            Err(e) => r == Err::<Carrier, Error>(e),
        },
{
    if !(mode == 2 || mode == 3) {
        return Err(Error::InvalidParameter);
    }
    if country > 999 || service > 999 {
        return Err(Error::InvalidParameter);
    }
    let b = postcode.as_bytes();
    if mode == 2 {
        if b.len() == 0 || b.len() > 9 {
            return Err(Error::InvalidData);
        }
        let mut k: usize = 0;
        while k < b.len()
            invariant
                k <= b@.len(),
                b@ == postcode.spec_bytes(),
                mode == 2,
                country <= 999 && service <= 999,
                1 <= b@.len() <= 9,
                forall|j: int| 0 <= j < k ==> is_digit(#[trigger] b@[j]),
            decreases b@.len() - k,
        {
            if !(48 <= b[k] && b[k] <= 57) {
                assert(!is_digit(postcode.spec_bytes()[k as int]));
                return Err(Error::InvalidData);
            }
            k = k + 1;
        }
        Ok(Carrier { postcode: copy_bytes(b), country, service })
    } else {
        if b.len() > 6 {
            return Err(Error::InvalidData);
        }
        let ghost up = b@.map_values(|x: u8| upper(x));
        let mut out: Vec<u8> = Vec::new();
        let mut k: usize = 0;
        while k < b.len()
            invariant
                k <= b@.len(),
                b@.len() <= 6,
                up == b@.map_values(|x: u8| upper(x)),
                b@ == postcode.spec_bytes(),
                mode == 3,
                country <= 999 && service <= 999,
                out@ == up.take(k as int),
                forall|j: int| 0 <= j < k ==> #[trigger] pos_from(0, up[j], 0) is Some,
            decreases b@.len() - k,
        {
            let c = b[k];
            let u = if 97 <= c && c <= 122 { c - 32 } else { c };
            assert(u == up[k as int]);
            if value_in_set(0, u).is_none() {
                assert(pos_from(0, postcode.spec_bytes().map_values(|x: u8| upper(x))[k as int], 0) is None);
                return Err(Error::InvalidData);
            }
            out.push(u);
            k = k + 1;
            assert(out@ =~= up.take(k as int));
        }
        let ghost core = out@;
        assert(core =~= up);
        while out.len() < 6
            invariant
                core.len() <= 6,
                core.len() <= out@.len() <= 6,
                out@ == core + Seq::new((out@.len() - core.len()) as nat, |j: int| 32u8),
            decreases 6 - out@.len(),
        {
            out.push(32);
            assert(out@ =~= core + Seq::new((out@.len() - core.len()) as nat, |j: int| 32u8));
        }
        Ok(Carrier { postcode: out, country, service })
    }
}

/// MaxiCode encoder.
#[derive(Debug, Default, Clone, Copy)]
pub struct MaxiCodeEncoder;

impl MaxiCodeEncoder {
    /// A new encoder.
    pub fn new() -> (e: Self) {
        MaxiCodeEncoder
    }

    /// Build a reproducible Mode 4 symbol from raw `data`.
    pub fn build(&self, data: &[u8]) -> (r: Result<Symbol, Error>)
        ensures
            r matches Ok(sym) ==> built(sym, 4),
            r is Ok <==> body_spec(data@, 4) is Ok,
            match body_spec(data@, 4) {
                Ok(b) => r matches Ok(sym) && sym.meta matches SymbolMeta::MaxiCode(meta) && meta.body@ == b,
                Err(e) => r == Err::<Symbol, Error>(e),
            },
    {
        self.build_mode(data, 4)
    }

    /// Build a Mode 4 symbol from UTF-8 `text`.
    pub fn build_text(&self, text: &str) -> (r: Result<Symbol, Error>)
        ensures
            r matches Ok(sym) ==> built(sym, 4),
            r is Ok <==> body_spec(text.spec_bytes(), 4) is Ok,
            match body_spec(text.spec_bytes(), 4) {
                Ok(b) => r matches Ok(sym) && sym.meta matches SymbolMeta::MaxiCode(meta) && meta.body@ == b,
                Err(e) => r == Err::<Symbol, Error>(e),
            },
    {
        self.build(text.as_bytes())
    }

    /// Build a data symbol in `mode` 4 (standard EC), 5 (enhanced EC) or 6 (reader
    /// programming).
    pub fn build_mode(&self, data: &[u8], mode: u8) -> (r: Result<Symbol, Error>)
        ensures
            !(4 <= mode <= 6) ==> r == Err::<Symbol, Error>(Error::InvalidParameter),
            r matches Ok(sym) ==> built(sym, mode),
            r matches Err(e) ==> e == Error::InvalidParameter || e == Error::InvalidData || e == Error::Capacity,
            r is Ok <==> 4 <= mode <= 6 && body_spec(data@, mode) is Ok,
            4 <= mode <= 6 ==> match body_spec(data@, mode) {
                Ok(b) => r matches Ok(sym) && sym.meta matches SymbolMeta::MaxiCode(meta) && meta.body@ == b,
                Err(e) => r == Err::<Symbol, Error>(e),
            },
    {
        if !(4 <= mode && mode <= 6) {
            return Err(Error::InvalidParameter);
        }
        let body = match encode_body(data, mode) {
            Ok(b) => b,
            Err(e) => {
                return Err(e);
            },
        };
        let segments = decode_body(body.as_slice());
        Ok(Symbol::new(Symbology::MaxiCode, segments, SymbolMeta::MaxiCode(MaxiCodeMeta { mode, carrier: None, body })))
    }

    /// Build a Structured Carrier symbol (mode 2 = numeric postcode, mode 3 =
    /// alphanumeric postcode), with a postal code, `country` code (0..=999) and
    /// `service` class (0..=999) in the primary message and `data` in the secondary.
    pub fn build_structured(&self, mode: u8, postcode: &str, country: u16, service: u16, data: &[u8]) -> (r: Result<
        Symbol,
        Error,
    >)
        ensures
            match carrier_spec(mode, postcode.spec_bytes(), country, service) {
                Err(e) => r == Err::<Symbol, Error>(e),
                Ok(p) => match body_spec(data@, mode) {
                    Err(e) => r == Err::<Symbol, Error>(e),
                    Ok(b) => r matches Ok(sym) && structured(sym, mode, b, p, country, service),
                },
            },
    {
        let carrier = match normalize_carrier(mode, postcode, country, service) {
            Ok(c) => c,
            Err(e) => {
                return Err(e);
            },
        };
        let body = match encode_body(data, mode) {
            Ok(b) => b,
            Err(e) => {
                return Err(e);
            },
        };
        let segments = decode_body(body.as_slice());
        Ok(
            Symbol::new(
                Symbology::MaxiCode,
                segments,
                SymbolMeta::MaxiCode(MaxiCodeMeta { mode, carrier: Some(carrier), body }),
            ),
        )
    }
}

/// A Structured Carrier symbol: built in `mode` with body `body`, its segments
/// the body's decoding, and the carrier holding `postcode`, `country` and `service`.
pub open spec fn structured(sym: Symbol, mode: u8, body: Seq<u8>, postcode: Seq<u8>, country: u16, service: u16) -> bool {
    &&& built(sym, mode)
    &&& seg_views(sym.segments@) == decode_body_spec(body)
    &&& sym.meta matches SymbolMeta::MaxiCode(meta)
    &&& meta.body@ == body
    &&& meta.carrier matches Some(c)
    &&& c.postcode@ == postcode
    &&& c.country == country
    &&& c.service == service
}

/// A built symbol: MaxiCode, in `mode`, with a full body whose decoded payload is
/// its segments.
pub open spec fn built(sym: Symbol, mode: u8) -> bool {
    &&& sym.symbology == Symbology::MaxiCode
    &&& body_segs_ok(sym.segments@)
    &&& sym.segments@.len() >= 1
    &&& sym.meta matches SymbolMeta::MaxiCode(meta) && meta.mode == mode && meta.body@.len() == body_len_spec(mode)
}

} // verus!
