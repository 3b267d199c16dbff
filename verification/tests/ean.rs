use anyd::codes::ean::encode::EanEncoder;
use anyd::codes::ean::tables::{
    check_digit, ean5_checksum, g_code, l_code, match_left, match_right, r_code, upce_expand,
    upce_from_parity, upce_parity,
};
use anyd::codes::ean::{AddOnKind, EanMeta, EanVariant};
use anyd::error::Error;
use anyd::output::{Encoding, LinearPattern};
use anyd::symbol::SymbolMeta;
use anyd::symbology::Symbology;

fn digits(s: &str) -> Vec<u8> {
    s.bytes().map(|b| b - b'0').collect()
}

#[test]
fn ean13_check_reference() {
    assert_eq!(check_digit(&digits("590123412345")), 7);
}

#[test]
fn upca_check_reference() {
    assert_eq!(check_digit(&digits("03600029145")), 2);
}

#[test]
fn upce_expand_reference() {
    let expanded = upce_expand(0, &[4, 2, 5, 2, 6, 1]);
    assert_eq!(expanded, [0, 4, 2, 1, 0, 0, 0, 0, 5, 2, 6]);
    assert_eq!(check_digit(&expanded), 4);
}

#[test]
fn ean5_checksum_reference() {
    assert_eq!(ean5_checksum(&digits("52495")), 1);
}

#[test]
fn element_relations() {
    for d in 0..10u8 {
        let l = l_code(d);
        let r = r_code(d);
        let g = g_code(d);
        for i in 0..7 {
            assert_eq!(l[i], !r[i], "L/R complement, digit {d}");
            assert_eq!(g[i], r[6 - i], "G is R reversed, digit {d}");
        }
    }
}

#[test]
fn l_code_of_zero_is_0001101() {
    assert_eq!(l_code(0), [false, false, false, true, true, false, true]);
}

#[test]
fn matchers_invert_codes() {
    for d in 0..10u8 {
        assert_eq!(match_left(&l_code(d)), Some((d, false)));
        assert_eq!(match_left(&g_code(d)), Some((d, true)));
        assert_eq!(match_right(&r_code(d)), Some(d));
    }
    assert_eq!(match_left(&[true; 7]), None);
    for ns in 0..2u8 {
        for c in 0..10u8 {
            assert_eq!(upce_from_parity(&upce_parity(ns, c)), Some((ns, c)));
        }
    }
}

fn modules(enc: &EanEncoder, sym: &anyd::symbol::Symbol) -> Vec<bool> {
    match enc.encode(sym).unwrap() {
        Encoding::Linear(p) => p.modules,
        Encoding::Matrix(_) => panic!("expected linear"),
    }
}

#[test]
fn ean13_build_and_length() {
    let enc = EanEncoder::new();
    let sym = enc.build_ean13("590123412345").unwrap();
    assert_eq!(sym.segments[0].data, b"5901234123457".to_vec());
    assert_eq!(sym.symbology, Symbology::Ean13);
    let m = modules(&enc, &sym);
    assert_eq!(m.len(), EanEncoder::max_modules(EanVariant::Ean13, None));
    assert_eq!(&m[..3], &[true, false, true]);
    assert_eq!(&m[45..50], &[false, true, false, true, false]);
    assert_eq!(enc.build_ean13("5901234123458").unwrap_err(), Error::InvalidData);
    assert_eq!(enc.build_ean13("59012341234").unwrap_err(), Error::InvalidData);
}

#[test]
fn upca_is_ean13_with_leading_zero() {
    let enc = EanEncoder::new();
    let upca = enc.build_upca("03600029145").unwrap();
    let ean = enc.build_ean13("0036000291452").unwrap();
    assert_eq!(modules(&enc, &upca), modules(&enc, &ean));
}

#[test]
fn upce_reference_and_addons() {
    let enc = EanEncoder::new();
    let sym = enc.build_upce("425261").unwrap();
    assert_eq!(sym.segments[0].data, b"04252614".to_vec());
    assert_eq!(modules(&enc, &sym).len(), 51);
    assert_eq!(enc.build_upce("04252615").unwrap_err(), Error::InvalidData);
    assert_eq!(enc.build_upce("2425261").unwrap_err(), Error::InvalidData);

    let with = enc.with_addon(enc.build_ean8("9638507").unwrap(), "52495").unwrap();
    let m = modules(&enc, &with);
    assert_eq!(m.len(), EanEncoder::max_modules(EanVariant::Ean8, Some(AddOnKind::Five)));
    assert_eq!(enc.with_addon(with.clone(), "123").unwrap_err(), Error::InvalidData);

    let two = enc.build_ean2("12").unwrap();
    assert_eq!(modules(&enc, &two).len(), 20);
    let five = enc.build_ean5("52495").unwrap();
    assert_eq!(modules(&enc, &five).len(), 47);
    match &with.meta {
        SymbolMeta::Ean(m) => assert_eq!(m.addon.as_ref().unwrap().kind, AddOnKind::Five),
        _ => panic!("expected EAN meta"),
    }
}

#[test]
fn addon_on_addon_is_refused() {
    let enc = EanEncoder::new();
    let two = enc.build_ean2("12").unwrap();
    let bad = enc.with_addon(two, "34").unwrap();
    assert_eq!(enc.encode(&bad).unwrap_err(), Error::InvalidParameter);
    let mut out = LinearPattern::new();
    assert_eq!(
        enc.encode_into(EanVariant::Ean13, b"12", None, &mut out),
        Err(Error::InvalidData)
    );
    assert_eq!(EanMeta::new(EanVariant::UpcA).addon, None);
}
