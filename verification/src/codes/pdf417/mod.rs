//! PDF417 and MicroPDF417 (ISO/IEC 15438, ISO/IEC 24728).

pub mod compaction;
pub mod ec;
pub mod encode;
mod radix;

pub use encode::Pdf417Encoder;

use vstd::prelude::*;

verus! {

/// The check codewords of level `l`: `2^(l+1)`.
pub open spec fn ec_count(l: nat) -> nat
    decreases l,
{
    if l == 0 {
        2
    } else {
        2 * ec_count((l - 1) as nat)
    }
}

/// The nine values `ec_count` takes on the levels.
pub proof fn lemma_ec_count_values()
    ensures
        ec_count(0) == 2,
        ec_count(1) == 4,
        ec_count(2) == 8,
        ec_count(3) == 16,
        ec_count(4) == 32,
        ec_count(5) == 64,
        ec_count(6) == 128,
        ec_count(7) == 256,
        ec_count(8) == 512,
{
    reveal_with_fuel(ec_count, 9);
}

/// PDF417 error-correction level, `0..=8`.
///
/// Level `n` appends `2^(n+1)` Reed–Solomon check codewords (2, 4, 8, … 512),
/// trading symbol size for damage tolerance.
#[derive(Debug, Clone, Copy, PartialEq, Eq, Hash, PartialOrd, Ord)]
pub struct EcLevel(u8);

impl EcLevel {
    #[verifier::type_invariant]
    spec fn in_range(self) -> bool {
        self.0 <= 8
    }

    /// The level number.
    pub closed spec fn spec_level(self) -> nat {
        self.0 as nat
    }

    /// Construct a level, validating the `0..=8` range.
    pub fn new(level: u8) -> (r: Option<Self>)
        ensures
            r is Some <==> level <= 8,
            r matches Some(l) ==> l.spec_level() == level,
    {
        if level <= 8 {
            Some(EcLevel(level))
        } else {
            None
        }
    }

    /// The level number, `0..=8`.
    pub fn level(self) -> (r: u8)
        ensures
            r == self.spec_level(),
            r <= 8,
    {
        proof {
            use_type_invariant(&self);
        }
        self.0
    }

    /// The number of Reed–Solomon error-correction codewords this level adds.
    pub fn ec_codewords(self) -> (k: usize)
        ensures
            k == ec_count(self.spec_level()),
            2 <= k <= 512,
    {
        proof {
            use_type_invariant(&self);
            lemma_ec_count_values();
        }
        let mut k: usize = 2;
        let mut i: u8 = 0;
        while i < self.0
            invariant
                i <= self.0 <= 8,
                k == ec_count(i as nat),
                ec_count(0) == 2 && ec_count(1) == 4 && ec_count(2) == 8 && ec_count(3) == 16 && ec_count(4) == 32
                    && ec_count(5) == 64 && ec_count(6) == 128 && ec_count(7) == 256 && ec_count(8) == 512,
            decreases self.0 - i,
        {
            k = k * 2;
            i = i + 1;
        }
        k
    }
}

/// Parameters required to re-encode a PDF417 symbol identically: the geometry and
/// the error-correction strength (the compaction modes live in the segments).
#[derive(Debug, Clone, PartialEq, Eq)]
pub struct Pdf417Meta {
    /// Number of rows (`3..=90`).
    pub rows: usize,
    /// Number of data columns (`1..=30`), excluding start/stop and row indicators.
    pub columns: usize,
    /// Error-correction level.
    pub ec_level: EcLevel,
}

impl Default for Pdf417Meta {
    fn default() -> (m: Self)
        ensures
            m.rows == 3,
            m.columns == 1,
            m.ec_level.spec_level() == 0,
    {
        Pdf417Meta { rows: 3, columns: 1, ec_level: EcLevel(0) }
    }
}

} // verus!
