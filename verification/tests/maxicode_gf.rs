use anyd::codes::maxicode::gf::{decode, encode, exp, generator, inv, mul, ORDER};

#[test]
fn field_axioms() {
    assert_eq!(mul(0, 5), 0);
    assert_eq!(mul(1, 5), 5);
    for a in 1u8..64 {
        assert_eq!(mul(a, inv(a)), 1, "inverse of {a}");
    }
    assert_eq!(exp(ORDER), 1);
    for i in 0..ORDER {
        assert!(exp(i) < 64);
    }
}

#[test]
fn rs_roundtrip_clean() {
    let data = [34u8, 20, 45, 20, 17, 18, 2, 18, 7, 0];
    let ec = encode(&data, 10);
    let mut block = data.to_vec();
    block.extend_from_slice(&ec);
    assert_eq!(decode(&block, 10).as_deref(), Some(block.as_slice()));
}

#[test]
fn rs_corrects_errors() {
    let data = [1u8, 2, 3, 4, 5, 6, 7, 8, 9, 10];
    let ec = encode(&data, 20);
    let mut block = data.to_vec();
    block.extend_from_slice(&ec);
    let clean = block.clone();
    for k in 0..6 {
        block[k * 4] ^= 0x2A;
    }
    assert_eq!(decode(&block, 20).as_deref(), Some(clean.as_slice()));
}

#[test]
fn generator_has_requested_degree() {
    assert_eq!(generator(10).len(), 11);
    assert_eq!(exp(1), 2);
    assert_eq!(exp(6), 0x03);
}
