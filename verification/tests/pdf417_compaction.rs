use anyd::codes::pdf417::compaction::{decode_segments, encode_segments};
use anyd::error::Error;
use anyd::segment::{Mode, Segment};

/// Independent reference vectors (ISO/IEC 15438 Annex P, as exercised by ZXing):
/// text "ABCD" → 1, 63; numeric "1234" → 902, 12, 434; byte "abcd" →
/// 901, 97, 98, 99, 100.
#[test]
fn reference_vectors() {
    assert_eq!(
        encode_segments(&[Segment::alphanumeric(b"ABCD".to_vec())]).unwrap(),
        vec![900, 1, 63]
    );
    assert_eq!(
        encode_segments(&[Segment::numeric(b"1234".to_vec())]).unwrap(),
        vec![902, 12, 434]
    );
    assert_eq!(
        encode_segments(&[Segment::byte(b"abcd".to_vec())]).unwrap(),
        vec![901, 97, 98, 99, 100]
    );
}

fn roundtrip(seg: Segment) {
    let stream = encode_segments(std::slice::from_ref(&seg)).unwrap();
    // A symbol-length descriptor in front, as the symbol carries it.
    let mut data = vec![(stream.len() + 1) as u32];
    data.extend_from_slice(&stream);
    let segs = decode_segments(&data).unwrap();
    assert_eq!(segs, vec![seg]);
}

#[test]
fn text_roundtrips() {
    roundtrip(Segment::alphanumeric(b"HELLO world 123".to_vec()));
    roundtrip(Segment::alphanumeric(b"Mix3d: $tuff! (a) [b] {c}".to_vec()));
    roundtrip(Segment::alphanumeric(b"ABC".to_vec()));
    roundtrip(Segment::alphanumeric(b"a".to_vec()));
}

#[test]
fn byte_roundtrips_all_remainders() {
    for len in 1..=20usize {
        let data: Vec<u8> = (0..len)
            .map(|i| (i as u8).wrapping_mul(37).wrapping_add(3))
            .collect();
        roundtrip(Segment::byte(data));
    }
}

#[test]
fn numeric_roundtrips_long() {
    roundtrip(Segment::numeric(b"1234".to_vec()));
    roundtrip(Segment::numeric(b"000213298174000".to_vec()));
    let long: Vec<u8> = (0..130).map(|i| b'0' + (i % 10) as u8).collect();
    roundtrip(Segment::numeric(long));
}

#[test]
fn compaction_refusals() {
    assert_eq!(
        encode_segments(&[Segment::numeric(Vec::new())]),
        Err(Error::InvalidData)
    );
    assert_eq!(
        encode_segments(&[Segment::numeric(b"12a".to_vec())]),
        Err(Error::InvalidData)
    );
    assert_eq!(
        encode_segments(&[Segment::alphanumeric(vec![b'A', 0x80])]),
        Err(Error::InvalidData)
    );
    assert_eq!(
        encode_segments(&[Segment { mode: Mode::Kanji, data: vec![0x93, 0x5f] }]),
        Err(Error::Unsupported)
    );
    assert_eq!(
        encode_segments(&[Segment { mode: Mode::Eci(3), data: vec![1] }]),
        Err(Error::Unsupported)
    );
    // The first refused segment decides the error.
    assert_eq!(
        encode_segments(&[
            Segment::numeric(b"1x".to_vec()),
            Segment { mode: Mode::Kanji, data: vec![1] },
        ]),
        Err(Error::InvalidData)
    );
}

#[test]
fn byte_groups_of_six_use_latch_924() {
    let stream = encode_segments(&[Segment::byte(vec![1, 2, 3, 4, 5, 6])]).unwrap();
    // The six bytes read as one big-endian number, written as five base-900 digits.
    let v: u64 = 0x0102_0304_0506;
    let digits = [
        (v / 900 / 900 / 900 / 900 % 900) as u32,
        (v / 900 / 900 / 900 % 900) as u32,
        (v / 900 / 900 % 900) as u32,
        (v / 900 % 900) as u32,
        (v % 900) as u32,
    ];
    assert_eq!(stream[0], 924);
    assert_eq!(&stream[1..], &digits[..]);
}

#[test]
fn several_segments_keep_their_boundaries() {
    let segs = vec![
        Segment::alphanumeric(b"Code 42!".to_vec()),
        Segment::numeric(b"0042".to_vec()),
        Segment::byte(vec![0, 255, 7]),
    ];
    let stream = encode_segments(&segs).unwrap();
    let mut data = vec![(stream.len() + 1) as u32];
    data.extend_from_slice(&stream);
    // Trailing padding (900 900) is dropped by the decoder.
    data[0] += 2;
    data.push(900);
    data.push(900);
    assert_eq!(decode_segments(&data).unwrap(), segs);
}

#[test]
fn decoder_refusals() {
    assert_eq!(decode_segments(&[]), Err(Error::Undecodable));
    assert_eq!(decode_segments(&[0, 900]), Err(Error::Undecodable));
    assert_eq!(decode_segments(&[5, 900]), Err(Error::Undecodable));
    // A control codeword the decoder does not handle.
    assert_eq!(decode_segments(&[2, 913]), Err(Error::Undecodable));
    // A numeric group whose digits lack the leading sentinel 1.
    assert_eq!(decode_segments(&[3, 902, 5]), Err(Error::Undecodable));
    // Content with no latch reads as text.
    assert_eq!(
        decode_segments(&[3, 1, 63]).unwrap(),
        vec![Segment::alphanumeric(b"ABCD".to_vec())]
    );
}
