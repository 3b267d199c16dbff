use anyd::codes::pdf417::ec::{decode, encode, generator, MOD};

#[test]
fn generator_matches_iso_tables() {
    let k2 = generator(2);
    assert_eq!(&k2[..2], &[27, 917]);
    let k4 = generator(4);
    assert_eq!(&k4[..4], &[522, 568, 723, 809]);
    let k8 = generator(8);
    assert_eq!(&k8[..8], &[237, 308, 436, 284, 646, 653, 428, 379]);
    assert_eq!(*k2.last().unwrap(), 1);
    assert_eq!(*k8.last().unwrap(), 1);
}

#[test]
fn ec_rs_roundtrip_clean() {
    let data = [7u32, 100, 200, 300, 400, 500, 600];
    let ec = encode(&data, 8);
    let mut block = data.to_vec();
    block.extend_from_slice(&ec);
    assert_eq!(decode(&block, 8).as_deref(), Some(block.as_slice()));
}

#[test]
fn ec_rs_corrects_errors() {
    let data = [7u32, 100, 200, 300, 400, 500, 600, 111, 222, 333];
    let ec = encode(&data, 16);
    let mut block = data.to_vec();
    block.extend_from_slice(&ec);
    let clean = block.clone();
    block[0] = (block[0] + 5) % MOD;
    block[2] = (block[2] + 900) % MOD;
    block[5] = 0;
    block[7] = 928;
    block[9] = (block[9] + 1) % MOD;
    block[11] = (block[11] + 400) % MOD;
    block[14] = (block[14] + 77) % MOD;
    block[17] = (block[17] + 200) % MOD;
    assert_eq!(decode(&block, 16).as_deref(), Some(clean.as_slice()));
}

#[test]
fn rs_detects_uncorrectable() {
    let data = [1u32, 2, 3, 4];
    let ec = encode(&data, 4);
    let mut block = data.to_vec();
    block.extend_from_slice(&ec);
    block[0] = (block[0] + 1) % MOD;
    block[1] = (block[1] + 1) % MOD;
    block[2] = (block[2] + 1) % MOD;
    assert_eq!(decode(&block, 4), None);
}

#[test]
fn ec_single_error_is_repaired_and_check_words_are_reduced() {
    let data = [0u32, 928, 17];
    let ec = encode(&data, 2);
    assert_eq!(ec.len(), 2);
    assert!(ec.iter().all(|&c| c < MOD));
    let mut block = data.to_vec();
    block.extend_from_slice(&ec);
    let clean = block.clone();
    block[1] = 5;
    assert_eq!(decode(&block, 2), Some(clean));
}
