use vstd::prelude::*;
use crate::segment::{Segment, payload_of};
use crate::symbology::Symbology;
use crate::codes::itf::ItfMeta;
use crate::codes::pharmacode::PharmacodeMeta;
use crate::codes::msi::MsiMeta;
use crate::codes::ean::EanMeta;
use crate::codes::dxfilm::DxFilmMeta;
use crate::codes::dotcode::DotCodeMeta;
use crate::codes::maxicode::MaxiCodeMeta;
use crate::codes::microqr::MicroQrMeta;
use crate::codes::gridmatrix::GridMatrixMeta;
use crate::codes::postal::PostalMeta;
use crate::codes::pdf417::Pdf417Meta;

verus! {

/// Everything, beyond the payload, needed to re-encode a symbol identically.
#[derive(Debug, Clone, PartialEq, Eq)]
pub enum SymbolMeta {
    /// Interleaved 2 of 5.
    Itf(ItfMeta),
    /// Pharmacode (one- and two-track).
    Pharmacode(PharmacodeMeta),
    /// MSI Plessey and Plessey.
    Msi(MsiMeta),
    /// EAN/UPC family.
    Ean(EanMeta),
    /// DX Film Edge.
    DxFilm(DxFilmMeta),
    /// DotCode.
    DotCode(DotCodeMeta),
    /// MaxiCode.
    MaxiCode(MaxiCodeMeta),
    /// Micro QR Code.
    MicroQr(MicroQrMeta),
    /// Grid Matrix.
    GridMatrix(GridMatrixMeta),
    /// The postal family.
    Postal(PostalMeta),
    /// PDF417.
    Pdf417(Pdf417Meta),
}

/// A decoded or to-be-encoded symbol: its family, payload segments and the
/// family-specific parameters.
#[derive(Debug, Clone, PartialEq, Eq)]
pub struct Symbol {
    /// The family.
    pub symbology: Symbology,
    /// The payload.
    pub segments: Vec<Segment>,
    /// Family-specific encoding decisions.
    pub meta: SymbolMeta,
}

impl Symbol {
    /// Assemble a symbol.
    pub fn new(symbology: Symbology, segments: Vec<Segment>, meta: SymbolMeta) -> (s: Symbol)
        ensures
            s.symbology == symbology,
            s.segments@ == segments@,
            s.meta == meta,
    {
        Symbol { symbology, segments, meta }
    }

    /// All payload bytes, segment after segment.
    pub fn payload_bytes(&self) -> (out: Vec<u8>)
        ensures
            out@ == payload_of(self.segments@),
    {
        let mut out: Vec<u8> = Vec::new();
        let mut i: usize = 0;
        while i < self.segments.len()
            invariant
                i <= self.segments@.len(),
                out@ == payload_of(self.segments@.take(i as int)),
            decreases self.segments@.len() - i,
        {
            let seg = &self.segments[i];
            let mut j: usize = 0;
            let ghost before = out@;
            while j < seg.data.len()
                invariant
                    j <= seg.data@.len(),
                    out@ == before + seg.data@.take(j as int),
                decreases seg.data@.len() - j,
            {
                out.push(seg.data[j]);
                j = j + 1;
                proof {
                    assert(out@ =~= before + seg.data@.take(j as int));
                }
            }
            proof {
                assert(seg.data@.take(seg.data@.len() as int) =~= seg.data@);
                assert(self.segments@.take(i + 1).drop_last() =~= self.segments@.take(i as int));
            }
            i = i + 1;
        }
        proof {
            assert(self.segments@.take(self.segments@.len() as int) =~= self.segments@);
        }
        out
    }
}

} // verus!
