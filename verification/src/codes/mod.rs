//! Per-symbology implementations.

pub mod dotcode;
pub mod dxfilm;
pub mod ean;
pub mod gridmatrix;
pub mod hanxin;
pub mod itf;
pub mod maxicode;
pub mod microqr;
pub mod msi;
pub mod pdf417;
pub mod pharmacode;
pub mod postal;
