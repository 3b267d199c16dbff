use anyd::codes::microqr::decode::{parse_segments, MicroQrDecoder};
use anyd::codes::microqr::encode::{codewords, write_segment, MicroQrEncoder, MAX_DATA_CW};
use anyd::codes::microqr::matrix::{is_function_module, Canvas};
use anyd::codes::microqr::tables::data_module_count;
use anyd::codes::microqr::{MicroEcLevel, MicroMask, MicroVersion};
use anyd::output::Encoding;
use anyd::segment::{Mode, Segment};
use std::collections::HashSet;

#[test]
fn m2_example_codewords() {
    let segments = [Segment::numeric(b"01234567".to_vec())];
    let (cw, data_bits, total_bits) = codewords(&segments, MicroVersion::M2, MicroEcLevel::M).unwrap();
    assert_eq!((data_bits, total_bits), (32, 80));
    let expected_data = [64, 24, 172, 195];
    let expected_ec = [211, 226, 194, 57, 150, 107];
    assert_eq!(cw[..4], expected_data);
    assert_eq!(cw[MAX_DATA_CW..MAX_DATA_CW + 6], expected_ec);
}

#[test]
fn m3_pad_codewords() {
    let segments = [Segment::numeric(b"1".to_vec())];
    let (cw, data_bits, _) = codewords(&segments, MicroVersion::M3, MicroEcLevel::L).unwrap();
    assert_eq!(data_bits, 84);
    let expected = [0x02, 0x20, 0x00, 0xEC, 0x11, 0xEC, 0x11, 0xEC, 0x11, 0xEC, 0x00];
    assert_eq!(cw[..11], expected);
    let segments = [Segment::numeric(b"12345678901234567890123".to_vec())];
    let (cw, _, _) = codewords(&segments, MicroVersion::M3, MicroEcLevel::L).unwrap();
    assert_eq!(cw[10] & 0x0F, 0);
}

#[test]
fn data_path_covers_all_data_modules() {
    for v in [MicroVersion::M1, MicroVersion::M2, MicroVersion::M3, MicroVersion::M4] {
        let c = Canvas::new(v);
        let mut seen = HashSet::new();
        for p in c.data_path() {
            assert!(!is_function_module(p.0, p.1));
            assert!(seen.insert(p), "duplicate module {p:?} in {v:?}");
        }
        assert_eq!(seen.len(), data_module_count(v), "{v:?}");
    }
}

#[test]
fn encode_example_is_m2() {
    let segments = [Segment::numeric(b"01234567".to_vec())];
    let (grid, meta) = MicroQrEncoder::new().encode_into(&segments, MicroEcLevel::L, None, None).unwrap();
    assert_eq!((grid.width, meta.version.number()), (13, 2));
}

#[test]
fn symbols_round_trip_through_the_matrix() {
    let enc = MicroQrEncoder::new();
    let dec = MicroQrDecoder::new();
    let cases: Vec<(Vec<Segment>, MicroEcLevel)> = vec![
        (vec![Segment::numeric(b"12345".to_vec())], MicroEcLevel::Detection),
        (vec![Segment::alphanumeric(b"HELLO 42".to_vec())], MicroEcLevel::L),
        (vec![Segment::byte(b"micro qr!".to_vec())], MicroEcLevel::M),
        (vec![Segment::numeric(b"0123".to_vec()), Segment::byte(b"ab".to_vec())], MicroEcLevel::L),
    ];
    for (segs, level) in cases {
        let sym = enc.build(segs.clone(), level).unwrap();
        let encoding = enc.encode(&sym).unwrap();
        let back = match &encoding {
            Encoding::Matrix(m) => dec.decode_matrix(m).unwrap(),
            _ => panic!("expected a matrix"),
        };
        assert_eq!(back.segments, segs);
        assert_eq!(back.meta, sym.meta);
    }
}

#[test]
fn mask_twice_restores_the_grid() {
    let segments = [Segment::byte(b"xyz".to_vec())];
    let (grid, _) = MicroQrEncoder::new().encode_into(&segments, MicroEcLevel::L, None, None).unwrap();
    let mut c = Canvas { size: grid.width, grid: grid.clone() };
    let m = MicroMask::new(2).unwrap();
    c.apply_mask(m);
    assert_ne!(c.grid, grid);
    c.apply_mask(m);
    assert_eq!(c.grid, grid);
}

#[test]
fn eci_segments_are_rejected() {
    let mut w = Vec::new();
    assert!(write_segment(&mut w, &Segment::eci(3), MicroVersion::M4).is_err());
    // M1 is numeric only.
    assert!(write_segment(&mut w, &Segment::byte(b"a".to_vec()), MicroVersion::M1).is_err());
    let bad = Segment::numeric(b"12a".to_vec());
    assert!(write_segment(&mut w, &bad, MicroVersion::M2).is_err());
}

#[test]
fn parse_stops_at_the_terminator() {
    // M2: mode 0 (numeric, 1 bit), count 3 (4 bits: 0011), "123" in 10 bits, then zeros.
    let mut bits = vec![false, false, false, true, true];
    let v = 123u32;
    for k in (0..10).rev() {
        bits.push((v >> k) & 1 == 1);
    }
    bits.extend(vec![false; 16]);
    let segs = parse_segments(&bits, MicroVersion::M2).unwrap();
    assert_eq!(segs.len(), 1);
    assert_eq!(segs[0].mode, Mode::Numeric);
    assert_eq!(segs[0].data, b"123".to_vec());
}

#[test]
fn micro_qr_overflow_is_a_capacity_error() {
    let segments = [Segment::byte(vec![b'x'; 40])];
    assert!(MicroQrEncoder::new().encode_into(&segments, MicroEcLevel::L, None, None).is_err());
}
