use anyd::codes::msi::{
    msi_mod10, msi_mod11, plessey_bits, plessey_crc, MsiCheck, MsiDecoder, MsiEncoder, MsiMeta,
};
use anyd::error::Error;
use anyd::output::{Encoding, LinearPattern};
use anyd::symbol::SymbolMeta;
use anyd::symbology::Symbology;

const GRID: [u8; 9] = [1, 1, 1, 1, 0, 1, 0, 0, 1];

#[test]
fn msi_check_reference() {
    // Wikipedia MSI example: 1234567 has mod-10 and mod-11 check digit 4.
    assert_eq!(msi_mod10(b"1234567"), 4);
    assert_eq!(msi_mod11(b"1234567"), Some(4));
}

#[test]
fn plessey_crc_matches_long_division() {
    fn reference(data_bits: &[u8]) -> Vec<u8> {
        let mut work = data_bits.to_vec();
        work.extend([0u8; 8]);
        for i in 0..data_bits.len() {
            if work[i] == 1 {
                for (j, &g) in GRID.iter().enumerate() {
                    work[i + j] ^= g;
                }
            }
        }
        work[data_bits.len()..].to_vec()
    }
    for digits in [&b"0"[..], b"1234", b"ABCDEF", b"DEADBEEF", b"F0F0F0F0F1"] {
        let bits = plessey_bits(digits);
        assert_eq!(plessey_crc(&bits), reference(&bits));
    }
}

#[test]
fn msi_roundtrip_all_schemes() {
    let enc = MsiEncoder::new();
    for scheme in [
        MsiCheck::NoCheck,
        MsiCheck::Mod10,
        MsiCheck::Mod11,
        MsiCheck::Mod1010,
        MsiCheck::Mod1110,
    ] {
        let sym = enc.build_msi(b"1234567", scheme).unwrap();
        let encoding = enc.encode(&sym).unwrap();
        let back = MsiDecoder::with_check(scheme).decode(&encoding).unwrap();
        assert_eq!(back.segments, sym.segments);
        assert_eq!(back.meta, sym.meta);
        assert_eq!(enc.encode(&back).unwrap(), encoding);
    }
}

#[test]
fn plessey_roundtrip() {
    let enc = MsiEncoder::new();
    for data in [&b"1234"[..], b"ABCDEF", b"0", b"DEADBEEF"] {
        let sym = enc.build_plessey(data).unwrap();
        let encoding = enc.encode(&sym).unwrap();
        let back = MsiDecoder::plessey().decode(&encoding).unwrap();
        assert_eq!(back.segments, sym.segments);
        assert_eq!(enc.encode(&back).unwrap(), encoding);
    }
}

#[test]
fn msi_digit_bits_and_frame() {
    let enc = MsiEncoder::new();
    let mut out = LinearPattern::new();
    enc.encode_into(Symbology::MsiPlessey, b"5", &MsiMeta::default(), &mut out)
        .unwrap();
    // start 110, digit 5 = 0101 -> 100 110 100 110, stop 1001
    let expect: Vec<bool> = "110100110100110" .chars()
        .chain("1001".chars())
        .map(|c| c == '1')
        .collect();
    assert_eq!(out.modules, expect);
    assert_eq!(
        MsiEncoder::max_modules(Symbology::MsiPlessey, 1, &MsiMeta::default()),
        out.modules.len()
    );
}

#[test]
fn plessey_module_count_matches_max() {
    let enc = MsiEncoder::new();
    let mut out = LinearPattern::new();
    enc.encode_into(Symbology::Plessey, b"A1", &MsiMeta::default(), &mut out)
        .unwrap();
    assert_eq!(
        MsiEncoder::max_modules(Symbology::Plessey, 2, &MsiMeta::default()),
        out.modules.len()
    );
}

#[test]
fn msi_errors() {
    let enc = MsiEncoder::new();
    assert_eq!(enc.build_msi(b"", MsiCheck::NoCheck).unwrap_err(), Error::InvalidData);
    assert_eq!(enc.build_msi(b"12a", MsiCheck::Mod10).unwrap_err(), Error::InvalidData);
    assert_eq!(enc.build_plessey(b"12G").unwrap_err(), Error::InvalidData);
    assert_eq!(enc.build_plessey(b"").unwrap_err(), Error::InvalidData);
    let mut out = LinearPattern::new();
    assert_eq!(
        enc.encode_into(Symbology::Itf, b"12", &MsiMeta::default(), &mut out),
        Err(Error::InvalidParameter)
    );
    // A wrong expected check scheme is refused.
    let sym = enc.build_msi(b"1234567", MsiCheck::NoCheck).unwrap();
    let encoding = enc.encode(&sym).unwrap();
    assert_eq!(
        MsiDecoder::new().decode(&Encoding::Linear(LinearPattern::new())),
        Err(Error::Undecodable)
    );
    assert!(matches!(sym.meta, SymbolMeta::Msi(_)));
}

#[test]
fn msi_mod11_ten_is_refused() {
    // weights from the right 2,3: 9*3 + 1*2 = 29, 29 % 11 = 7, 11 - 7 = 4 ... find a ten:
    // "5" -> 5*2 = 10 -> 11 - 10 = 1; "0" -> 0 -> 0; "6" -> 12 % 11 = 1 -> 10.
    assert_eq!(msi_mod11(b"6"), None);
    let enc = MsiEncoder::new();
    assert_eq!(enc.build_msi(b"6", MsiCheck::Mod11).unwrap_err(), Error::InvalidData);
}
