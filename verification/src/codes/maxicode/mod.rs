//! MaxiCode (ISO/IEC 16023): code sets, data encodation into a codeword body and its
//! decoding back to segments, and the GF(64) Reed–Solomon arithmetic. Placing a body
//! into the 30 × 33 module grid and reading it back are not available: those entry
//! points answer [`Error::Unsupported`].
use vstd::prelude::*;

pub mod decode;
pub mod encode;
pub mod gf;
pub mod tables;

pub use encode::MaxiCodeEncoder;
use crate::error::Error;
use crate::output::Encoding;
use crate::symbol::Symbol;

verus! {

/// The Structured Carrier primary message of modes 2 and 3.
#[derive(Debug, Clone, PartialEq, Eq)]
pub struct Carrier {
    /// The postal code (digits for mode 2; Code Set A characters, space-padded to
    /// six, for mode 3).
    pub postcode: Vec<u8>,
    /// Country code, 0–999.
    pub country: u16,
    /// Service class, 0–999.
    pub service: u16,
}

/// Parameters required to re-encode a MaxiCode symbol identically.
#[derive(Debug, Clone, PartialEq, Eq)]
pub struct MaxiCodeMeta {
    /// The mode, 2–6.
    pub mode: u8,
    /// The Structured Carrier of modes 2 and 3.
    pub carrier: Option<Carrier>,
    /// The data-codeword body.
    pub body: Vec<u8>,
}

impl MaxiCodeEncoder {
    /// Placing a body into the module grid is not available.
    pub fn encode(&self, symbol: &Symbol) -> (r: Result<Encoding, Error>)
        ensures
            r == Err::<Encoding, Error>(Error::Unsupported),
    {
        Err(Error::Unsupported)
    }
}

/// MaxiCode decoder.
#[derive(Debug, Default, Clone, Copy)]
pub struct MaxiCodeDecoder;

impl MaxiCodeDecoder {
    /// A new decoder.
    pub fn new() -> (d: Self) {
        MaxiCodeDecoder
    }

    /// Symbol decoding is not available.
    pub fn decode(&self, encoding: &Encoding) -> (r: Result<Symbol, Error>)
        ensures
            r == Err::<Symbol, Error>(Error::Unsupported),
    {
        Err(Error::Unsupported)
    }
}

} // verus!
