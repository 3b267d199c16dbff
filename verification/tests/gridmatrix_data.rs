use anyd::codes::gridmatrix::data::{canonical_segments, decode_segments, encode_segments, recommended_ec, GmMode};
use anyd::codes::gridmatrix::EcLevel;
use anyd::error::Error;

fn gm_roundtrip(segs: &[(GmMode, Vec<u8>)]) {
    let bits = encode_segments(segs).unwrap();
    let back = decode_segments(&bits).unwrap();
    assert_eq!(back, segs, "segment bitstream round trip");
}

#[test]
fn bitstream_round_trips_each_mode() {
    gm_roundtrip(&[(GmMode::Numeral, b"1234567".to_vec())]);
    gm_roundtrip(&[(GmMode::Upper, b"HELLO WORLD".to_vec())]);
    gm_roundtrip(&[(GmMode::Lower, b"grid matrix".to_vec())]);
    gm_roundtrip(&[(GmMode::Byte, vec![0, 1, 2, 255, 128, 127])]);
    gm_roundtrip(&[(GmMode::Byte, Vec::new())]);
}

#[test]
fn bitstream_round_trips_mixed_sequences() {
    gm_roundtrip(&[
        (GmMode::Upper, b"ABC ".to_vec()),
        (GmMode::Numeral, b"12".to_vec()),
        (GmMode::Lower, b"xyz".to_vec()),
        (GmMode::Byte, vec![0x80, 0x00, 0xFF]),
    ]);
}

#[test]
fn byte_run_exceeds_one_block() {
    let big: Vec<u8> = (0..600).map(|i| (i % 256) as u8).collect();
    gm_roundtrip(&[(GmMode::Byte, big)]);
}

#[test]
fn numeral_all_group_boundaries() {
    for n in 1..=13usize {
        let digits: Vec<u8> = (0..n).map(|i| b'0' + (i % 10) as u8).collect();
        gm_roundtrip(&[(GmMode::Numeral, digits)]);
    }
}

#[test]
fn canonical_segmentation_is_deterministic_and_disjoint() {
    let segs = canonical_segments(b"AB12cd!! 34");
    for w in segs.windows(2) {
        assert_ne!(w[0].0, w[1].0);
    }
    let flat: Vec<u8> = segs.iter().flat_map(|(_, d)| d.clone()).collect();
    assert_eq!(flat, b"AB12cd!! 34");
}

fn bits_of(s: &str) -> Vec<bool> {
    s.chars().filter(|c| *c == '0' || *c == '1').map(|c| c == '1').collect()
}

#[test]
fn mode_numbers_follow_the_specification() {
    assert_eq!(GmMode::Chinese.index(), 1);
    assert_eq!(GmMode::Numeral.index(), 2);
    assert_eq!(GmMode::Lower.index(), 3);
    assert_eq!(GmMode::Upper.index(), 4);
    assert_eq!(GmMode::Mixed.index(), 5);
    assert_eq!(GmMode::Byte.index(), 6);
}

#[test]
fn numeral_bitstream_is_exact() {
    // selector 2, indicator 3-1=2 (one digit in the last group), 123, 4, end of data 1018
    let bits = encode_segments(&[(GmMode::Numeral, b"1234".to_vec())]).unwrap();
    assert_eq!(bits, bits_of("0010 10 0001111011 0000000100 1111111010"));
}

#[test]
fn upper_then_byte_bitstream_is_exact() {
    // selector 4, 'A' = 0, space = 26, escape to byte 126 (7 bits), count 1, 0xFF, end 0
    let bits = encode_segments(&[(GmMode::Upper, b"A ".to_vec()), (GmMode::Byte, vec![0xFF])]).unwrap();
    assert_eq!(bits, bits_of("0100 00000 11010 1111110 000000001 11111111 0000"));
}

#[test]
fn encoder_errors() {
    assert_eq!(encode_segments(&[]), Err(Error::InvalidParameter));
    assert_eq!(encode_segments(&[(GmMode::Numeral, Vec::new())]), Err(Error::InvalidData));
    assert_eq!(encode_segments(&[(GmMode::Numeral, b"12a".to_vec())]), Err(Error::InvalidData));
    assert_eq!(encode_segments(&[(GmMode::Upper, b"Ab".to_vec())]), Err(Error::InvalidData));
    assert_eq!(encode_segments(&[(GmMode::Lower, b"aB".to_vec())]), Err(Error::InvalidData));
    assert_eq!(encode_segments(&[(GmMode::Chinese, vec![0xB0, 0xA1])]), Err(Error::Unsupported));
    assert_eq!(encode_segments(&[(GmMode::Mixed, b"!".to_vec())]), Err(Error::Unsupported));
    // two neighbours in one mode have no switch between them
    assert_eq!(
        encode_segments(&[(GmMode::Upper, b"A".to_vec()), (GmMode::Upper, b"B".to_vec())]),
        Err(Error::Unsupported)
    );
    // the first failing segment decides the error
    assert_eq!(
        encode_segments(&[(GmMode::Upper, b"a".to_vec()), (GmMode::Upper, b"B".to_vec())]),
        Err(Error::InvalidData)
    );
}

#[test]
fn decoder_errors() {
    assert_eq!(decode_segments(&bits_of("001")), Err(Error::Undecodable));
    assert_eq!(decode_segments(&bits_of("0001")), Err(Error::Unsupported));
    assert_eq!(decode_segments(&bits_of("0101")), Err(Error::Unsupported));
    assert_eq!(decode_segments(&bits_of("0000")), Err(Error::Undecodable));
    assert_eq!(decode_segments(&bits_of("0110")), Err(Error::Undecodable));
    // upper mode, then the Chinese switch
    assert_eq!(decode_segments(&bits_of("0100 11100")), Err(Error::Unsupported));
    // upper mode, truncated glyph
    assert_eq!(decode_segments(&bits_of("0100 111")), Err(Error::Undecodable));
    // numeral control 1000 is undefined
    assert_eq!(decode_segments(&bits_of("0010 10 1111101000")), Err(Error::Undecodable));
    // byte run announcing more bytes than there are
    assert_eq!(decode_segments(&bits_of("0111 000000010 11111111")), Err(Error::Undecodable));
    // byte control 9 is undefined
    assert_eq!(decode_segments(&bits_of("0111 000000000 1001")), Err(Error::Undecodable));
}

#[test]
fn decoder_ignores_trailing_bits() {
    let mut bits = encode_segments(&[(GmMode::Lower, b"ab".to_vec())]).unwrap();
    bits.extend_from_slice(&[true, false, true, true]);
    assert_eq!(decode_segments(&bits), Ok(vec![(GmMode::Lower, b"ab".to_vec())]));
}

#[test]
fn decoder_accepts_short_continued_runs() {
    // two byte runs of one byte each, joined by the continuation control
    let bits = bits_of("0111 000000001 00000001 0110 000000001 00000010 0000");
    assert_eq!(decode_segments(&bits), Ok(vec![(GmMode::Byte, vec![1, 2])]));
}

#[test]
fn canonical_segments_split_exactly() {
    assert_eq!(canonical_segments(b""), vec![(GmMode::Byte, Vec::new())]);
    assert_eq!(
        canonical_segments(b"AB12cd!! 34"),
        vec![
            (GmMode::Upper, b"AB".to_vec()),
            (GmMode::Numeral, b"12".to_vec()),
            (GmMode::Lower, b"cd".to_vec()),
            (GmMode::Byte, b"!!".to_vec()),
            (GmMode::Upper, b" ".to_vec()),
            (GmMode::Numeral, b"34".to_vec()),
        ]
    );
    assert_eq!(
        canonical_segments(b"ab cd"),
        vec![(GmMode::Lower, b"ab cd".to_vec())]
    );
}

#[test]
fn canonical_segments_round_trip() {
    for data in [&b"Hello, World 2026!"[..], b"", b"\x00\xff", b"abc DEF 0123456789"] {
        let segs = canonical_segments(data);
        let bits = encode_segments(&segs).unwrap();
        let back = decode_segments(&bits).unwrap();
        assert_eq!(back, segs);
        let flat: Vec<u8> = back.into_iter().flat_map(|(_, d)| d).collect();
        assert_eq!(flat, data);
    }
}

#[test]
fn recommended_ec_levels() {
    assert_eq!(recommended_ec(1), EcLevel::L5);
    assert_eq!(recommended_ec(2), EcLevel::L4);
    assert_eq!(recommended_ec(3), EcLevel::L4);
    assert_eq!(recommended_ec(4), EcLevel::L3);
    assert_eq!(recommended_ec(13), EcLevel::L3);
}
