use vstd::prelude::*;

verus! {

/// What went wrong while building, encoding or decoding a symbol.
#[derive(Debug, Clone, Copy, PartialEq, Eq, Structural)]
pub enum Error {
    /// The payload cannot be represented by the symbology (bad characters, bad length).
    InvalidData,
    /// The caller asked for something inconsistent (wrong symbology, missing meta).
    InvalidParameter,
    /// The encoding does not carry a well-formed symbol.
    Undecodable,
    /// The payload does not fit in any size the symbology offers.
    Capacity,
    /// The request names a feature this library does not implement.
    Unsupported,
    /// Reed–Solomon decoding could not repair the codewords.
    ErrorCorrectionFailed,
}

} // verus!
