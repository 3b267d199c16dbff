use anyd::codes::maxicode::decode::decode_body;
use anyd::codes::maxicode::encode::{body_len, choose_set, encode_body, MaxiCodeEncoder};
use anyd::codes::maxicode::tables::{cell_target, sets, value_in_set, Cw, MAXI_GRID};
use anyd::segment::Mode;
use anyd::error::Error;
use anyd::symbol::SymbolMeta;
use std::collections::HashSet;

#[test]
fn grid_covers_every_data_module_once() {
    let mut seen = HashSet::new();
    for row in &MAXI_GRID {
        for &v in row {
            if v != 0 {
                assert!(v <= 864, "module {v} out of range");
                assert!(seen.insert(v), "module {v} appears twice");
            }
        }
    }
    assert_eq!(seen.len(), 864);
}

#[test]
fn code_sets_parse_to_64() {
    let s = sets();
    assert_eq!(s[0][1], Cw::Byte(b'A'));
    assert_eq!(s[0][32], Cw::Byte(b' '));
    assert_eq!(s[0][58], Cw::Byte(b':'));
    assert_eq!(s[0][0], Cw::Byte(b'\r'));
    assert_eq!(s[1][0], Cw::Byte(b'`'));
    assert_eq!(s[1][63], Cw::LatchA);
    assert_eq!(s[2][58], Cw::LatchA);
    assert_eq!(s[2][60], Cw::Lock);
    assert_eq!(s[4][0], Cw::Byte(0));
    assert_eq!(value_in_set(0, b'7'), Some(55));
    assert_eq!(value_in_set(1, b'7'), None);
}

#[test]
fn all_bytes_have_a_code_set() {
    for b in 0u16..=255 {
        assert!(choose_set(b as u8).is_some(), "byte {b:#04x} has no code set");
    }
}

#[test]
fn pure_set_a_needs_no_latches() {
    let body = encode_body(b"ABC123", 4).unwrap();
    assert_eq!(&body[0..6], &[1, 2, 3, 49, 50, 51]);
    assert_eq!(body.len(), body_len(4));
    assert!(body[6..].iter().all(|&c| c == 33));
}

#[test]
fn mode_marks_segment_mode_byte() {
    let sym = MaxiCodeEncoder::new().build_text("HELLO").unwrap();
    assert!(sym.segments.iter().all(|s| s.mode == Mode::Byte));
}

#[test]
fn body_round_trips_through_the_state_machine() {
    let data = b"Hello, MaxiCode! \xe0\xe1 ~";
    let body = encode_body(data, 4).unwrap();
    let segs = decode_body(&body);
    assert_eq!(segs.len(), 1);
    assert_eq!(segs[0].data, data.to_vec());
}

#[test]
fn modes_outside_4_to_6_are_rejected() {
    let enc = MaxiCodeEncoder::new();
    assert!(enc.build_mode(b"A", 3).is_err());
    assert!(enc.build_mode(b"A", 7).is_err());
    assert_eq!(body_len(5), 77);
    assert_eq!(body_len(2), 84);
}

#[test]
fn too_much_data_is_a_capacity_error() {
    let data = vec![b'A'; 94];
    assert_eq!(encode_body(&data, 4), Err(anyd::error::Error::Capacity));
}

#[test]
fn numeric_shift_and_eci_are_decoded() {
    // ECI (27 in set A) with assignment 3, then 'A'.
    let segs = decode_body(&[27, 3, 1]);
    assert_eq!(segs[0].mode, Mode::Eci(3));
    assert_eq!(segs[1].data, b"A".to_vec());
    // NS (31 in set A): five codewords forming 123456789.
    let v: u32 = 123456789;
    let cw = [31u8, ((v >> 24) & 63) as u8, ((v >> 18) & 63) as u8, ((v >> 12) & 63) as u8, ((v >> 6) & 63) as u8, (v & 63) as u8];
    let segs = decode_body(&cw);
    assert_eq!(segs[0].data, b"123456789".to_vec());
}

#[test]
fn module_numbers_map_to_codeword_bits() {
    assert_eq!(cell_target(0), None);
    assert_eq!(cell_target(1), Some((0, 5)));
    assert_eq!(cell_target(6), Some((0, 0)));
    assert_eq!(cell_target(864), Some((143, 0)));
}

#[test]
fn structured_carrier_checks_and_normalises_the_primary_message() {
    let enc = MaxiCodeEncoder::new();
    let sym = enc.build_structured(2, "123456789", 840, 1, b"HELLO").unwrap();
    match &sym.meta {
        SymbolMeta::MaxiCode(m) => {
            assert_eq!(m.mode, 2);
            assert_eq!(m.body.len(), 84);
            let c = m.carrier.as_ref().unwrap();
            assert_eq!(c.postcode, b"123456789".to_vec());
            assert_eq!((c.country, c.service), (840, 1));
        }
        _ => panic!("expected MaxiCode parameters"),
    }
    let sym3 = enc.build_structured(3, "ab1", 826, 7, b"X").unwrap();
    match &sym3.meta {
        SymbolMeta::MaxiCode(m) => {
            assert_eq!(m.carrier.as_ref().unwrap().postcode, b"AB1   ".to_vec());
        }
        _ => panic!("expected MaxiCode parameters"),
    }
    assert_eq!(enc.build_structured(4, "123", 1, 1, b"X"), Err(Error::InvalidParameter));
    assert_eq!(enc.build_structured(2, "123", 1000, 1, b"X"), Err(Error::InvalidParameter));
    assert_eq!(enc.build_structured(2, "123", 1, 1000, b"X"), Err(Error::InvalidParameter));
    assert_eq!(enc.build_structured(2, "", 1, 1, b"X"), Err(Error::InvalidData));
    assert_eq!(enc.build_structured(2, "1234567890", 1, 1, b"X"), Err(Error::InvalidData));
    assert_eq!(enc.build_structured(2, "12a", 1, 1, b"X"), Err(Error::InvalidData));
    assert_eq!(enc.build_structured(3, "abcdefg", 1, 1, b"X"), Err(Error::InvalidData));
    assert_eq!(enc.build_structured(3, "{", 1, 1, b"X"), Err(Error::InvalidData));
}
