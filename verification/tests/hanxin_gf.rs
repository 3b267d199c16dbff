use anyd::codes::hanxin::matrix::{evaluate, mask_flip};
use anyd::codes::hanxin::gf::GaloisField;
use anyd::codes::hanxin::{HanXinDecoder, HanXinEncoder};
use anyd::error::Error;
use anyd::output::{Encoding, LinearPattern};

#[test]
fn data_field_axioms() {
    let gf = GaloisField::data();
    assert_eq!(gf.mul(0, 5), 0);
    assert_eq!(gf.mul(1, 5), 5);
    for a in 1u8..=255 {
        assert_eq!(gf.mul(a, gf.inv(a)), 1, "inverse of {a}");
    }
    assert_eq!(gf.exp_of(255), 1);
}

#[test]
fn function_field_axioms() {
    let gf = GaloisField::function();
    for a in 1u8..=15 {
        assert_eq!(gf.mul(a, gf.inv(a)), 1, "inverse of {a}");
    }
    assert_eq!(gf.exp_of(15), 1);
}

#[test]
fn gf_rs_roundtrip_clean() {
    let gf = GaloisField::data();
    let data = [0x11u8, 0xEC, 0x04, 0xFF, 0x40, 0x00, 0x00, 0x00, 0x00];
    let ec = gf.rs_encode(&data, 16, 1);
    let mut block = data.to_vec();
    block.extend_from_slice(&ec);
    assert_eq!(gf.rs_decode(&block, 16, 1).as_deref(), Some(block.as_slice()));
}

#[test]
fn gf_rs_corrects_errors() {
    let gf = GaloisField::data();
    let data = [0x11u8, 0xEC, 0x04, 0xFF, 0x40, 0x00, 0x00, 0x00, 0x00];
    let ec = gf.rs_encode(&data, 16, 1);
    let mut block = data.to_vec();
    block.extend_from_slice(&ec);
    let clean = block.clone();
    block[0] ^= 0xFF;
    block[4] ^= 0x0F;
    block[9] ^= 0xA5;
    block[14] ^= 0x33;
    block[20] ^= 0x01;
    assert_eq!(gf.rs_decode(&block, 16, 1).as_deref(), Some(clean.as_slice()));
}

#[test]
fn function_rs_roundtrip() {
    let gf = GaloisField::function();
    let data = [0x2, 0x1, 0x0];
    let ec = gf.rs_encode(&data, 4, 1);
    assert_eq!(ec.len(), 4);
    let mut block = data.to_vec();
    block.extend_from_slice(&ec);
    assert_eq!(gf.rs_decode(&block, 4, 1).as_deref(), Some(block.as_slice()));
}

#[test]
fn generator_degree_and_pow() {
    let gf = GaloisField::data();
    let g = gf.generator(4, 1);
    assert_eq!(g.len(), 5);
    assert_eq!(g[0], 1);
    assert_eq!(gf.pow(2, 0), 1);
    assert_eq!(gf.pow(2, 1), 2);
    assert_eq!(gf.pow(2, -1), gf.inv(2));
    assert_eq!(gf.div(gf.mul(7, 9), 9), 7);
    assert_eq!(gf.poly_mul(&[1, 2], &[1, 3]), vec![1, 2 ^ 3, gf.mul(2, 3)]);
}

#[test]
fn too_many_errors_are_refused() {
    let gf = GaloisField::data();
    let data = [1u8, 2, 3, 4];
    let ec = gf.rs_encode(&data, 4, 1);
    let mut block = data.to_vec();
    block.extend_from_slice(&ec);
    block[0] ^= 1;
    block[1] ^= 1;
    block[2] ^= 1;
    assert_ne!(gf.rs_decode(&block, 4, 1).as_deref(), Some(block.as_slice()));
}

#[test]
fn symbol_entry_points_are_unsupported() {
    let enc = HanXinEncoder::new();
    let dec = HanXinDecoder::new();
    let e = Encoding::Linear(LinearPattern::new());
    assert_eq!(dec.decode(&e).unwrap_err(), Error::Unsupported);
    let sym = anyd::symbol::Symbol::new(
        anyd::symbology::Symbology::HanXin,
        vec![],
        anyd::symbol::SymbolMeta::Itf(anyd::codes::itf::ItfMeta::default()),
    );
    assert_eq!(enc.encode(&sym).unwrap_err(), Error::Unsupported);
}

#[test]
fn blank_grid_penalty_counts_only_runs() {
    // Every row and column is one run of 23 modules: 23 · 4 each, 46 lines.
    assert_eq!(evaluate(&vec![0u8; 23 * 23], 23), 46 * 92);
    assert_eq!(evaluate(&vec![1u8; 23 * 23], 23), 46 * 92);
}

#[test]
fn finder_like_row_is_penalised() {
    // A 1:1:1:1:3-style row 1011101 with light borders, in an otherwise light grid.
    let n = 13;
    let mut g = vec![0u8; n * n];
    for (k, &v) in [1u8, 0, 1, 0, 1, 1, 1].iter().enumerate() {
        g[6 * n + 3 + k] = v;
    }
    let base = evaluate(&g, n);
    let mut g2 = g.clone();
    // Breaking the pattern (a light module in the middle of the final run) removes the
    // finder penalty of 50.
    g2[6 * n + 3 + 5] = 0;
    let other = evaluate(&g2, n);
    assert_ne!(base, other);
}

#[test]
fn mask_patterns_follow_their_formulas() {
    assert!(!mask_flip(0, 3, 4));
    assert!(mask_flip(1, 0, 0));
    assert!(!mask_flip(1, 1, 0));
    // Pattern 2 at (0, 0): i = j = 1 → (2 % 3 + 1 % 3) % 2 = 1.
    assert!(!mask_flip(2, 0, 0));
}
