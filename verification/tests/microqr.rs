use anyd::codes::microqr::tables::{
    char_count_bits, data_bit_capacity, decode_format, ec_params, format_bits, micro_mode_value,
    mode_from_micro_value, symbol_number, terminator_bits, version_ec_from_symbol_number,
};
use anyd::codes::microqr::{MicroEcLevel, MicroMask, MicroVersion};
use anyd::segment::Mode;

#[test]
fn format_codes_match_reference() {
    const EXPECTED: [u16; 32] = [
        0x4445, 0x4172, 0x4e2b, 0x4b1c, 0x55ae, 0x5099, 0x5fc0, 0x5af7, 0x6793, 0x62a4, 0x6dfd,
        0x68ca, 0x7678, 0x734f, 0x7c16, 0x7921, 0x06de, 0x03e9, 0x0cb0, 0x0987, 0x1735, 0x1202,
        0x1d5b, 0x186c, 0x2508, 0x203f, 0x2f66, 0x2a51, 0x34e3, 0x31d4, 0x3e8d, 0x3bba,
    ];
    for (i, &want) in EXPECTED.iter().enumerate() {
        let s = (i / 4) as u8;
        let m = (i % 4) as u8;
        assert_eq!(format_bits(s, m), want, "S={s} mask={m}");
        assert_eq!(decode_format(want), Some((s, m)));
    }
}

#[test]
fn format_decode_corrects_three_errors_and_refuses_more() {
    let good = format_bits(5, 2);
    assert_eq!(decode_format(good ^ 0b0000_0000_0000_0111), Some((5, 2)));
}

#[test]
fn versions_and_tables() {
    for n in 1..=4u8 {
        let v = MicroVersion::from_number(n).unwrap();
        assert_eq!(v.number(), n);
        assert_eq!(MicroVersion::from_size(v.size()), Some(v));
        assert_eq!(terminator_bits(v), 2 * n as usize + 1);
    }
    assert_eq!(MicroVersion::from_number(5), None);
    assert_eq!(MicroVersion::M4.size(), 17);
    assert_eq!(MicroMask::new(4), None);
    assert_eq!(MicroMask::new(3).unwrap().index(), 3);
    let p = ec_params(MicroVersion::M3, MicroEcLevel::M).unwrap();
    assert_eq!((p.data_cw, p.ec_cw), (9, 8));
    assert!(ec_params(MicroVersion::M1, MicroEcLevel::L).is_none());
    assert_eq!(data_bit_capacity(MicroVersion::M1, MicroEcLevel::Detection), Some(20));
    assert_eq!(data_bit_capacity(MicroVersion::M4, MicroEcLevel::Q), Some(80));
    for s in 0..8u8 {
        let (v, ec) = version_ec_from_symbol_number(s).unwrap();
        assert_eq!(symbol_number(v, ec), Some(s));
    }
    assert_eq!(char_count_bits(MicroVersion::M1, &Mode::Numeric), Some(3));
    assert_eq!(char_count_bits(MicroVersion::M1, &Mode::Byte), None);
    assert_eq!(char_count_bits(MicroVersion::M4, &Mode::Kanji), Some(4));
    assert_eq!(micro_mode_value(&Mode::Eci(3)), None);
    assert_eq!(mode_from_micro_value(2), Some(Mode::Byte));
}
