//! Han Xin Code: symbol-level encoding and decoding are not available; both entry points
//! answer [`Error::Unsupported`]. The field arithmetic and tables stand on their own.
use vstd::prelude::*;

pub mod gf;
pub mod matrix;
use crate::error::Error;
use crate::output::Encoding;
use crate::symbol::Symbol;

verus! {

/// Parameters required to re-encode a Han Xin Code symbol identically.
#[derive(Debug, Clone, PartialEq, Eq, Default, Structural)]
pub struct HanXinMeta;

/// Han Xin Code encoder.
#[derive(Debug, Default, Clone, Copy)]
pub struct HanXinEncoder;

impl HanXinEncoder {
    /// A new encoder.
    pub fn new() -> (e: Self) {
        HanXinEncoder
    }

    /// Symbol encoding is not available.
    pub fn encode(&self, symbol: &Symbol) -> (r: Result<Encoding, Error>)
        ensures
            r == Err::<Encoding, Error>(Error::Unsupported),
    {
        Err(Error::Unsupported)
    }
}

/// Han Xin Code decoder.
#[derive(Debug, Default, Clone, Copy)]
pub struct HanXinDecoder;

impl HanXinDecoder {
    /// A new decoder.
    pub fn new() -> (d: Self) {
        HanXinDecoder
    }

    /// Symbol decoding is not available.
    pub fn decode(&self, encoding: &Encoding) -> (r: Result<Symbol, Error>)
        ensures
            r == Err::<Symbol, Error>(Error::Unsupported),
    {
        Err(Error::Unsupported)
    }
}

} // verus!
