use anyd::codes::itf::{mod10, rle, ItfDecoder, ItfEncoder, WIDE};
use anyd::output::Encoding;

#[test]
fn mod10_matches_gtin_reference() {
    assert_eq!(mod10(b"1234567890123"), 1);
}

#[test]
fn start_and_stop_shape() {
    let enc = ItfEncoder::new();
    let sym = enc.build(b"1234", false).unwrap();
    let Encoding::Linear(p) = enc.encode(&sym).unwrap() else {
        panic!("expected linear");
    };
    let runs = rle(&p.modules).unwrap();
    assert_eq!(&runs[..4], &[1, 1, 1, 1]);
    let n = runs.len();
    assert_eq!(&runs[n - 3..], &[WIDE, 1, 1]);
}

#[test]
fn roundtrip_with_and_without_check() {
    let enc = ItfEncoder::new();
    for (digits, check) in [
        (&b"1234"[..], false),
        (&b"123456"[..], false),
        (&b"12345"[..], true),
    ] {
        let sym = enc.build(digits, check).unwrap();
        let encoding = enc.encode(&sym).unwrap();
        let dec = ItfDecoder::with_check(check);
        let back = dec.decode(&encoding).unwrap();
        assert_eq!(back.segments, sym.segments);
        assert_eq!(back.meta, sym.meta);
        assert_eq!(enc.encode(&back).unwrap(), encoding);
    }
}

#[test]
fn odd_count_rejected() {
    assert!(ItfEncoder::new().build(b"123", false).is_err());
}

#[test]
fn itf_rejects_non_digits_and_bad_check() {
    let enc = ItfEncoder::new();
    assert!(enc.build(b"12a4", false).is_err());
    assert!(enc.build(b"", false).is_err());
    let sym = enc.build(b"12345", true).unwrap();
    let Encoding::Linear(mut p) = enc.encode(&sym).unwrap() else {
        panic!("expected linear");
    };
    // Decoding without the check keeps all six digits, check included.
    let back = ItfDecoder::new().decode(&Encoding::Linear(p.clone())).unwrap();
    assert_eq!(back.segments[0].data, b"123457".to_vec());
    // Flip the first module: the pattern no longer starts with a bar.
    p.modules[0] = false;
    assert!(ItfDecoder::new().decode(&Encoding::Linear(p)).is_err());
}
