use vstd::prelude::*;

verus! {

/// The barcode families this library encodes and decodes.
#[derive(Debug, Clone, Copy, PartialEq, Eq, Structural)]
pub enum Symbology {
    /// DotCode.
    DotCode,
    /// DX film edge barcode.
    DxFilmEdge,
    /// EAN-13.
    Ean13,
    /// EAN-8.
    Ean8,
    /// UPC-A.
    UpcA,
    /// UPC-E.
    UpcE,
    /// UPC/EAN 2-digit add-on.
    Ean2,
    /// UPC/EAN 5-digit add-on.
    Ean5,
    /// Grid Matrix.
    GridMatrix,
    /// Han Xin Code.
    HanXin,
    /// Interleaved 2 of 5.
    Itf,
    /// MaxiCode.
    MaxiCode,
    /// Micro QR Code.
    MicroQrCode,
    /// MSI Plessey.
    MsiPlessey,
    /// Plessey.
    Plessey,
    /// PDF417.
    Pdf417,
    /// MicroPDF417.
    MicroPdf417,
    /// One-track Pharmacode.
    Pharmacode,
    /// Two-track Pharmacode.
    PharmacodeTwoTrack,
    /// USPS POSTNET.
    Postnet,
    /// USPS PLANET.
    Planet,
    /// USPS Intelligent Mail.
    IntelligentMail,
    /// Royal Mail 4-State (RM4SCC).
    RoyalMail,
    /// Dutch KIX code.
    KixCode,
    /// Australia Post 4-State.
    AustraliaPost,
    /// Japan Post 4-State.
    JapanPost,
    /// Royal Mail Mailmark.
    Mailmark,
}

} // verus!
