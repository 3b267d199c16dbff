//! DotCode (AIM ISS DotCode Rev 4.0): a dot matrix on a checkerboard, with a
//! Code Set A/B/C + binary data encodation, GF(113) Reed–Solomon error correction,
//! four data masks and a scoring rule that picks among them.
//!
//! A symbol decodes to its payload and to [`DotCodeMeta`] (size, mask and the
//! unmasked data codewords), from which the encoder reproduces the identical dot
//! matrix.
use vstd::prelude::*;

pub mod decode;
pub mod encode;
pub mod rs;
pub mod scan;
pub mod score;
pub mod tables;

pub use decode::DotCodeDecoder;
pub use encode::DotCodeEncoder;

verus! {

/// Smallest symbol side.
pub const MIN_SIZE: usize = 5;

/// Largest symbol side.
pub const MAX_SIZE: usize = 200;

/// Parameters required to re-encode a DotCode symbol identically.
#[derive(Debug, Clone, PartialEq, Eq)]
pub struct DotCodeMeta {
    /// Columns.
    pub width: usize,
    /// Rows.
    pub height: usize,
    /// The data mask, 0–3.
    pub mask: u8,
    /// The unmasked data codewords, padding included.
    pub codewords: Vec<u8>,
}

} // verus!
