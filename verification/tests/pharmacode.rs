use anyd::codes::pharmacode::{one_track_bars, two_track_bars, PharmacodeDecoder, PharmacodeEncoder, WIDE};
use anyd::symbology::Symbology;

#[test]
fn one_track_bounds() {
    assert_eq!(one_track_bars(3), vec![1, 1]);
    assert_eq!(one_track_bars(131070), vec![WIDE; 16]);
}

#[test]
fn two_track_bounds() {
    assert_eq!(two_track_bars(4), vec![1, 1]);
    assert_eq!(two_track_bars(64570080), vec![3; 16]);
}

#[test]
fn one_track_roundtrip() {
    let enc = PharmacodeEncoder::new();
    for value in [3u32, 4, 42, 1234, 65535, 131070] {
        let sym = enc.build(value).unwrap();
        let encoding = enc.encode(&sym).unwrap();
        let back = PharmacodeDecoder::new().decode(&encoding).unwrap();
        assert_eq!(back.segments, sym.segments);
        assert_eq!(enc.encode(&back).unwrap(), encoding);
    }
}

#[test]
fn two_track_roundtrip() {
    let enc = PharmacodeEncoder::new();
    for value in [4u32, 5, 100, 117480, 64570080] {
        let sym = enc.build_two_track(value).unwrap();
        let encoding = enc.encode(&sym).unwrap();
        let back = PharmacodeDecoder::two_track().decode(&encoding).unwrap();
        assert_eq!(back.symbology, Symbology::PharmacodeTwoTrack);
        assert_eq!(back.segments, sym.segments);
        assert_eq!(enc.encode(&back).unwrap(), encoding);
    }
}

#[test]
fn range_checks() {
    let enc = PharmacodeEncoder::new();
    assert!(enc.build(2).is_err());
    assert!(enc.build(131071).is_err());
    assert!(enc.build_two_track(3).is_err());
    assert!(enc.build_two_track(64570081).is_err());
}

#[test]
fn pharmacode_value_text_and_bars() {
    let enc = PharmacodeEncoder::new();
    let sym = enc.build(42).unwrap();
    assert_eq!(sym.segments[0].data, b"42".to_vec());
    // 42 = bijective binary 1 2 1 2 2 (1·16 + 2·8 + 1·4 + 2·2 + 2·1 = 42).
    assert_eq!(one_track_bars(42), vec![1, 3, 1, 3, 3]);
    assert_eq!(two_track_bars(13), vec![1, 1, 1]);
}
