//! Encoders and structural decoders for 1D, stacked, 2D and postal barcodes.

pub mod codes;
pub mod error;
pub mod output;
pub mod poly;
pub mod segment;
pub mod symbol;
pub mod symbology;
pub mod text;

use vstd::prelude::*;

verus! {

} // verus!
