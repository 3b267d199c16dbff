//! Micro QR Code (ISO/IEC 18004): versions, error-correction levels, masks and the
//! static specification tables.
//!
//! Micro QR is the compact single-finder cousin of QR. It defines four sizes,
//! M1 (11×11) through M4 (17×17), a single finder pattern, edge timing patterns,
//! a 15-bit format code with its own BCH mask, four data masks and reduced
//! per-version mode/character-count fields.
use vstd::prelude::*;

pub mod decode;
pub mod encode;
pub mod matrix;
pub mod tables;

verus! {

/// A Micro QR symbol version, M1–M4. The module grid is `11 + 2 * (n - 1)` on a side.
#[derive(Debug, Clone, Copy, PartialEq, Eq, Hash, PartialOrd, Ord, Structural)]
pub enum MicroVersion {
    /// 11×11, numeric only, error-detection only (no correctable EC).
    M1,
    /// 13×13, supports EC levels L and M.
    M2,
    /// 15×15, supports EC levels L and M.
    M3,
    /// 17×17, supports EC levels L, M and Q.
    M4,
}

/// The version index 1–4.
pub open spec fn version_number(v: MicroVersion) -> int {
    match v {
        MicroVersion::M1 => 1,
        MicroVersion::M2 => 2,
        MicroVersion::M3 => 3,
        MicroVersion::M4 => 4,
    }
}

impl MicroVersion {
    /// The version index 1–4 (M1 → 1 … M4 → 4).
    pub fn number(self) -> (n: u8)
        ensures
            n == version_number(self),
    {
        match self {
            MicroVersion::M1 => 1,
            MicroVersion::M2 => 2,
            MicroVersion::M3 => 3,
            MicroVersion::M4 => 4,
        }
    }

    /// Construct from the index 1–4.
    pub fn from_number(n: u8) -> (r: Option<Self>)
        ensures
            r is Some <==> 1 <= n <= 4,
            r matches Some(v) ==> version_number(v) == n,
    {
        match n {
            1 => Some(MicroVersion::M1),
            2 => Some(MicroVersion::M2),
            3 => Some(MicroVersion::M3),
            4 => Some(MicroVersion::M4),
            _ => None,
        }
    }

    /// Side length of the (square) module grid.
    pub fn size(self) -> (s: usize)
        ensures
            s == 11 + 2 * (version_number(self) - 1),
    {
        11 + 2 * (self.number() as usize - 1)
    }

    /// Recover a version from the grid side length, if valid.
    pub fn from_size(size: usize) -> (r: Option<Self>)
        ensures
            r is Some <==> (size == 11 || size == 13 || size == 15 || size == 17),
            r matches Some(v) ==> 11 + 2 * (version_number(v) - 1) == size,
    {
        match size {
            11 => Some(MicroVersion::M1),
            13 => Some(MicroVersion::M2),
            15 => Some(MicroVersion::M3),
            17 => Some(MicroVersion::M4),
            _ => None,
        }
    }
}

/// Micro QR error-correction level. `Detection` is the M1-only mode that carries
/// two error-*detection* codewords but no error *correction* capability.
#[derive(Debug, Clone, Copy, PartialEq, Eq, Hash, PartialOrd, Ord, Structural)]
pub enum MicroEcLevel {
    /// Error detection only (M1).
    Detection,
    /// ~7% recovery.
    L,
    /// ~15% recovery.
    M,
    /// ~25% recovery (M4 only).
    Q,
}

/// A Micro QR data mask pattern, 0–3.
#[derive(Debug, Clone, Copy, PartialEq, Eq, Hash, Structural)]
pub struct MicroMask(u8);

impl MicroMask {
    /// The mask pattern index.
    pub closed spec fn idx(self) -> u8 {
        self.0
    }

    /// Construct a mask, validating the `0..=3` range.
    pub fn new(m: u8) -> (r: Option<Self>)
        ensures
            r is Some <==> m <= 3,
            r matches Some(k) ==> k.idx() == m,
    {
        if m <= 3 { Some(MicroMask(m)) } else { None }
    }

    /// The mask pattern index, 0–3.
    pub fn index(self) -> (i: u8)
        ensures
            i == self.idx(),
            i <= 3,
    {
        proof {
            use_type_invariant(&self);
        }
        self.0
    }

    /// A mask index is at most 3.
    #[verifier::type_invariant]
    closed spec fn in_range(self) -> bool {
        self.0 <= 3
    }
}

/// Micro QR-specific parameters needed to re-encode a symbol identically.
#[derive(Debug, Clone, PartialEq, Eq)]
pub struct MicroQrMeta {
    /// Symbol version (size).
    pub version: MicroVersion,
    /// Error-correction level.
    pub ec_level: MicroEcLevel,
    /// Applied data mask pattern.
    pub mask: MicroMask,
}

} // verus!
