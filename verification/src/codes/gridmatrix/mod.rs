//! Grid Matrix (AIMD014 / GB/T 27766): versions, error-correction levels and the
//! per-version Reed–Solomon block structure.
//!
//! A symbol is a square array of `2·v + 1` macromodules per side (version `v` =
//! 1…13); each macromodule is a 6×6 block carrying two 7-bit codewords.
use vstd::prelude::*;

pub mod bitstream;
pub mod data;
pub mod decode;
pub mod encode;
pub mod gf;
pub mod layout;
pub mod tables;

pub use data::GmMode;
pub use decode::GridMatrixDecoder;
pub use encode::GridMatrixEncoder;
pub use tables::{EcLevel, Version};

verus! {

/// Grid Matrix parameters needed to re-encode a symbol identically.
#[derive(Debug, Clone, PartialEq, Eq)]
pub struct GridMatrixMeta {
    /// Symbol version (1–13), which fixes the module size.
    pub version: Version,
    /// Reed–Solomon error-correction level.
    pub ec_level: EcLevel,
    /// The encodation mode of each data segment, in symbol order.
    pub modes: Vec<GmMode>,
}

impl Default for GridMatrixMeta {
    fn default() -> (m: Self)
        ensures
            m.version.num() == 1,
            m.ec_level == EcLevel::L5,
            m.modes@.len() == 0,
    {
        GridMatrixMeta { version: Version::new(1).unwrap(), ec_level: EcLevel::L5, modes: Vec::new() }
    }
}

} // verus!
