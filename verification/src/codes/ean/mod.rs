//! EAN/UPC (ISO/IEC 15420) encoder and structural decoder.
//!
//! Covers the whole retail linear family: EAN-13, EAN-8, UPC-A, UPC-E, and the
//! UPC/EAN 2- and 5-digit add-ons.
//! - `tables`  — L/G/R element patterns, parity tables, guards, check digits and
//!   the UPC-E ⟷ UPC-A expansion.
//! - `encode`  — [`crate::symbol::Symbol`] → [`crate::output::LinearPattern`].
//!
//! The human-readable digits (including the check digit) live verbatim in a single
//! numeric segment; [`EanMeta`] pins which member of the family they belong to and
//! carries an optional 2- or 5-digit add-on.
use vstd::prelude::*;

pub mod encode;
pub mod tables;

pub use encode::EanEncoder;

verus! {

/// Which member of the EAN/UPC family a symbol represents.
#[derive(Debug, Clone, Copy, PartialEq, Eq, Structural)]
pub enum EanVariant {
    /// EAN-13 (13 digits).
    Ean13,
    /// EAN-8 (8 digits).
    Ean8,
    /// UPC-A (12 digits).
    UpcA,
    /// UPC-E (8 digits: number system + six payload digits + check).
    UpcE,
    /// Standalone EAN-2 add-on (2 digits).
    Ean2,
    /// Standalone EAN-5 add-on (5 digits).
    Ean5,
}

/// Whether an add-on carries two or five digits.
#[derive(Debug, Clone, Copy, PartialEq, Eq, Structural)]
pub enum AddOnKind {
    /// Two-digit supplement (checksum by value mod 4).
    Two,
    /// Five-digit supplement (weighted mod-10 checksum).
    Five,
}

/// A 2- or 5-digit supplemental add-on attached to a main EAN/UPC symbol.
#[derive(Debug, Clone, PartialEq, Eq)]
pub struct AddOn {
    /// Whether this is a 2- or 5-digit supplement.
    pub kind: AddOnKind,
    /// The add-on digits as ASCII bytes (`b'0'..=b'9'`).
    pub digits: Vec<u8>,
}

/// EAN/UPC parameters needed to re-encode a symbol identically.
#[derive(Debug, Clone, PartialEq, Eq)]
pub struct EanMeta {
    /// Which family member the symbol's digits belong to.
    pub variant: EanVariant,
    /// An optional 2- or 5-digit supplement following a main symbol.
    pub addon: Option<AddOn>,
}

impl EanMeta {
    /// Metadata for a plain main symbol with no add-on.
    pub fn new(variant: EanVariant) -> (m: Self)
        ensures
            m.variant == variant,
            m.addon is None,
    {
        EanMeta { variant, addon: None }
    }
}

} // verus!
