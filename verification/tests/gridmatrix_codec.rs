use anyd::codes::gridmatrix::encode::add_ecc;
use anyd::codes::gridmatrix::layout::{read_codewords, render};
use anyd::codes::gridmatrix::tables::blocks;
use anyd::codes::gridmatrix::{EcLevel, GmMode, GridMatrixDecoder, GridMatrixEncoder, GridMatrixMeta, Version};
use anyd::error::Error;
use anyd::output::Encoding;
use anyd::segment::Mode;
use anyd::symbol::SymbolMeta;
use anyd::symbology::Symbology;

const LEVELS: [EcLevel; 5] = [EcLevel::L1, EcLevel::L2, EcLevel::L3, EcLevel::L4, EcLevel::L5];

#[test]
fn add_ecc_fills_the_symbol() {
    for v in 1..=13u8 {
        let ver = Version::new(v).unwrap();
        for ec in LEVELS {
            if ver.data_codewords(ec) == 0 {
                continue;
            }
            let bits = vec![true; 7];
            let cws = add_ecc(&bits, ver, ec);
            assert_eq!(cws.len(), ver.total_codewords(), "v{v} {ec:?}");
            assert!(cws.iter().all(|&c| c < 128), "7-bit codewords v{v} {ec:?}");
        }
    }
}

#[test]
fn rejects_version_1_level_1() {
    let version = Version::new(1).unwrap();
    let mut cws = vec![0u8; version.total_codewords()];
    cws[0] = 0x20;
    cws[1] = 0x1B;
    let m = render(version, EcLevel::L1, &cws);
    assert!(GridMatrixDecoder::new().decode_matrix(&m).is_err());
}

#[test]
fn corrects_up_to_capacity_in_every_block() {
    let enc = GridMatrixEncoder::new();
    for v in 1..=13u8 {
        let version = Version::new(v).unwrap();
        for ec in LEVELS {
            if version.data_codewords(ec) == 0 {
                continue;
            }
            let symbol = enc.build_sized(b"GM 2026", version, ec).unwrap();
            let clean = match enc.encode(&symbol).unwrap() {
                Encoding::Matrix(m) => m,
                _ => panic!("expected a matrix"),
            };
            let cws = read_codewords(version, &clean);
            let layout = blocks(version, ec);
            let n = layout.len();
            let hit = |cws: &mut [u8], i: usize, count: usize| {
                for k in 0..count {
                    cws[n * (k * layout[i].total / count) + i] ^= 0x55;
                }
            };

            let mut bad = cws.clone();
            for (i, blk) in layout.iter().enumerate() {
                hit(&mut bad, i, blk.ec / 2);
            }
            let decoded = GridMatrixDecoder::new()
                .decode_matrix(&render(version, ec, &bad))
                .unwrap();
            assert_eq!(decoded, symbol, "v{v} {ec:?}");

            for (i, blk) in layout.iter().enumerate() {
                let mut bad = cws.clone();
                hit(&mut bad, i, blk.ec / 2 + 1);
                let result = GridMatrixDecoder::new().decode_matrix(&render(version, ec, &bad));
                assert!(result.is_err(), "v{v} {ec:?} block {i}");
            }
        }
    }
}

#[test]
fn add_ecc_places_data_and_padding() {
    // version 1 at level 5: one block of 18 codewords, 9 data and 9 check symbols
    let ver = Version::new(1).unwrap();
    let bits = vec![true, false, false, false, false, false, true, true];
    let cws = add_ecc(&bits, ver, EcLevel::L5);
    // 1000001 then 1 padded with zeros: 0x41, 0x40; then a zero, then 0x7E on odd slots
    assert_eq!(&cws[..9], &[0x41, 0x40, 0x00, 0x7E, 0x00, 0x7E, 0x00, 0x7E, 0x00]);
}

#[test]
fn build_picks_the_smallest_version() {
    let sym = GridMatrixEncoder::new().build(b"HELLO").unwrap();
    assert_eq!(sym.symbology, Symbology::GridMatrix);
    match &sym.meta {
        SymbolMeta::GridMatrix(m) => {
            assert_eq!(m.version.number(), 1);
            assert_eq!(m.ec_level, EcLevel::L5);
            assert_eq!(m.modes, vec![GmMode::Upper]);
        }
        _ => panic!("expected Grid Matrix parameters"),
    }
    assert_eq!(sym.segments.len(), 1);
    assert_eq!(sym.segments[0].mode, Mode::Alphanumeric);
    assert_eq!(sym.segments[0].data, b"HELLO".to_vec());
}

#[test]
fn build_text_matches_build() {
    let enc = GridMatrixEncoder::new();
    assert_eq!(enc.build_text("Grid 123"), enc.build(b"Grid 123"));
}

#[test]
fn build_errors_on_capacity() {
    let enc = GridMatrixEncoder::new();
    let big = vec![0x80u8; 2000];
    assert_eq!(enc.build(&big), Err(Error::Capacity));
    assert_eq!(enc.build_with_ec(&big, EcLevel::L5), Err(Error::Capacity));
    let v1 = Version::new(1).unwrap();
    assert_eq!(enc.build_sized(&big, v1, EcLevel::L5), Err(Error::Capacity));
    assert_eq!(enc.build_sized(b"A", v1, EcLevel::L1), Err(Error::Capacity));
}

#[test]
fn build_with_ec_keeps_the_level() {
    let sym = GridMatrixEncoder::new().build_with_ec(b"12345", EcLevel::L2).unwrap();
    match &sym.meta {
        SymbolMeta::GridMatrix(m) => {
            assert_eq!(m.version.number(), 1);
            assert_eq!(m.ec_level, EcLevel::L2);
        }
        _ => panic!("expected Grid Matrix parameters"),
    }
}

#[test]
fn gridmatrix_round_trips_through_the_grid() {
    let enc = GridMatrixEncoder::new();
    for data in [&b"Grid Matrix 2026!"[..], b"", b"\x00\x01\xfe\xff", b"abc DEF 0123456789"] {
        let sym = enc.build(data).unwrap();
        let m = match enc.encode(&sym).unwrap() {
            Encoding::Matrix(m) => m,
            _ => panic!("expected a matrix"),
        };
        assert_eq!(m.width, m.height);
        let back = GridMatrixDecoder::new().decode(&Encoding::Matrix(m)).unwrap();
        assert_eq!(back, sym);
        assert_eq!(back.payload_bytes(), data.to_vec());
    }
}

#[test]
fn gridmatrix_encode_errors() {
    let enc = GridMatrixEncoder::new();
    let mut sym = enc.build(b"AB").unwrap();
    sym.symbology = Symbology::MicroQrCode;
    assert_eq!(enc.encode(&sym), Err(Error::InvalidParameter));
    let mut sym = enc.build(b"AB").unwrap();
    sym.meta = SymbolMeta::GridMatrix(GridMatrixMeta::default());
    assert_eq!(enc.encode(&sym), Err(Error::InvalidParameter));
    let mut sym = enc.build(b"AB").unwrap();
    if let SymbolMeta::GridMatrix(m) = &mut sym.meta {
        m.modes = vec![GmMode::Numeral];
    }
    assert_eq!(enc.encode(&sym), Err(Error::InvalidData));
}

#[test]
fn gridmatrix_decode_errors() {
    let dec = GridMatrixDecoder::new();
    let enc = GridMatrixEncoder::new();
    let sym = enc.build(b"AB").unwrap();
    let m = match enc.encode(&sym).unwrap() {
        Encoding::Matrix(m) => m,
        _ => panic!("expected a matrix"),
    };
    assert_eq!(m.width, 18);
    let wide = anyd::output::BitMatrix::new(18, 19, 2);
    assert_eq!(dec.decode_matrix(&wide), Err(Error::Undecodable));
    let odd = anyd::output::BitMatrix::new(20, 20, 2);
    assert_eq!(dec.decode_matrix(&odd), Err(Error::Undecodable));
    let linear = Encoding::Linear(anyd::output::LinearPattern::new());
    assert_eq!(dec.decode(&linear), Err(Error::Unsupported));
}
