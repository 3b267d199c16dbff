use anyd::codes::dxfilm::{DxFilmDecoder, DxFilmEncoder, DxFilmMeta};
use anyd::error::Error;
use anyd::output::Encoding;
use anyd::symbol::SymbolMeta;

fn roundtrip(text: &str) {
    let enc = DxFilmEncoder::new();
    let sym = enc.build_text(text).unwrap();
    assert_eq!(sym.segments[0].data, text.as_bytes().to_vec());
    let encoding = enc.encode(&sym).unwrap();
    let back = DxFilmDecoder::new().decode(&encoding).unwrap();
    assert_eq!(back.segments, sym.segments);
    assert_eq!(back.meta, sym.meta);
}

#[test]
fn dx_roundtrips() {
    roundtrip("115-10");
    roundtrip("115-10/11A");
    roundtrip("1-0/0");
    roundtrip("127-15/63");
}

#[test]
fn dx_widths_and_tracks() {
    let enc = DxFilmEncoder::new();
    let sym = enc.build(115, 10, Some((11, true))).unwrap();
    let Encoding::Matrix(m) = enc.encode(&sym).unwrap() else { panic!("expected matrix") };
    assert_eq!((m.width, m.height), (31, 2));
    // start pattern 10101 on the data track, clock starts with five dark modules
    for x in 0..5 {
        assert!(m.get(x, 0));
        assert_eq!(m.get(x, 1), x % 2 == 0);
    }
    let sym = enc.build(115, 10, None).unwrap();
    let Encoding::Matrix(m) = enc.encode(&sym).unwrap() else { panic!("expected matrix") };
    assert_eq!(m.width, 23);
    assert_eq!(sym.meta, SymbolMeta::DxFilm(DxFilmMeta { has_frame_number: false }));
}

#[test]
fn dx_errors() {
    let enc = DxFilmEncoder::new();
    assert_eq!(enc.build(0, 1, None).unwrap_err(), Error::Capacity);
    assert_eq!(enc.build(128, 1, None).unwrap_err(), Error::Capacity);
    assert_eq!(enc.build(1, 16, None).unwrap_err(), Error::Capacity);
    assert_eq!(enc.build(1, 1, Some((64, false))).unwrap_err(), Error::Capacity);
    assert_eq!(enc.build_text("115").unwrap_err(), Error::InvalidData);
    assert_eq!(enc.build_text("x-1").unwrap_err(), Error::InvalidData);
    assert_eq!(enc.build_text("300-1").unwrap_err(), Error::InvalidData);
    assert_eq!(enc.build_text("200-1").unwrap_err(), Error::Capacity);
    // A flipped data module breaks the parity check.
    let sym = enc.build(115, 10, Some((11, false))).unwrap();
    let Encoding::Matrix(mut m) = enc.encode(&sym).unwrap() else { panic!("expected matrix") };
    let v = m.get(7, 1);
    m.set(7, 1, !v);
    assert_eq!(DxFilmDecoder::new().decode_matrix(&m).unwrap_err(), Error::Undecodable);
}
