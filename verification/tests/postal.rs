use anyd::codes::postal::bars::BarState;
use anyd::codes::postal::{imb, postnet, rm4scc, PostalDecoder, PostalEncoder, PostalMeta, PostalVariant};
use anyd::error::Error;
use anyd::output::{BitMatrix, Encoding, LinearPattern};
use anyd::segment::Mode;
use anyd::symbol::SymbolMeta;
use anyd::symbology::Symbology;

fn letters(bars: &[BarState]) -> String {
    bars.iter()
        .map(|b| match b {
            BarState::Tracker => 'T',
            BarState::Ascender => 'A',
            BarState::Descender => 'D',
            BarState::Full => 'F',
        })
        .collect()
}

fn round_trip(sym: anyd::symbol::Symbol) {
    let enc = PostalEncoder::new().encode(&sym).unwrap();
    let back = PostalDecoder::new().decode(&enc).unwrap();
    assert_eq!(back, sym);
}

#[test]
fn postnet_bars_for_one_digit() {
    // frame, digit 1 (00011), check digit 9 (10100), frame
    let bars = postnet::encode(false, b"1").unwrap();
    assert_eq!(letters(&bars), "ATTTAAATATTA");
    let planet = postnet::encode(true, b"1").unwrap();
    assert_eq!(letters(&planet), "AAAATTTATAAA");
}

#[test]
fn postnet_and_planet_round_trip() {
    let enc = PostalEncoder::new();
    round_trip(enc.build_postnet("12345").unwrap());
    round_trip(enc.build_postnet("123456789").unwrap());
    round_trip(enc.build_planet("01234567890").unwrap());
    let sym = enc.build_postnet("55555").unwrap();
    assert_eq!(sym.symbology, Symbology::Postnet);
    assert_eq!(sym.segments[0].mode, Mode::Numeric);
    assert_eq!(sym.meta, SymbolMeta::Postal(PostalMeta::new(PostalVariant::Postnet)));
}

#[test]
fn postnet_decode_checks_the_check_digit() {
    let mut bars = postnet::encode(false, b"12").unwrap();
    // replace the check digit group (7, 10001) by the pattern of 1 (00011)
    let n = bars.len();
    bars[n - 6] = BarState::Tracker;
    bars[n - 4] = BarState::Tracker;
    bars[n - 3] = BarState::Ascender;
    bars[n - 2] = BarState::Ascender;
    assert_eq!(postnet::decode(&bars), Err(Error::Undecodable));
    assert_eq!(postnet::decode(&bars[..5]), Err(Error::Undecodable));
}

#[test]
fn rm4scc_and_kix_round_trip() {
    let enc = PostalEncoder::new();
    round_trip(enc.build_rm4scc("SN34RD1A").unwrap());
    round_trip(enc.build_kix("2500GG30250").unwrap());
    round_trip(enc.build_rm4scc("A").unwrap());
}

#[test]
fn rm4scc_checksum_example() {
    // characters 0..: "1" is index 1 (top 1, bottom 2); checksum of "1" is itself
    let bars = rm4scc::encode(false, b"1").unwrap();
    assert_eq!(bars.len(), 1 + 4 + 4 + 1);
    assert_eq!(bars[0], BarState::Ascender);
    assert_eq!(bars[9], BarState::Full);
    assert_eq!(&bars[1..5], &bars[5..9]);
    let kix = rm4scc::encode(true, b"1").unwrap();
    assert_eq!(kix.len(), 4);
    assert_eq!(rm4scc::decode_kix(&kix), Ok((PostalVariant::KixCode, b"1".to_vec())));
}

#[test]
fn imb_round_trips() {
    let enc = PostalEncoder::new();
    for routing in ["", "01234", "012345678", "01234567891"] {
        let sym = enc.build_imb("01234567094987654321", routing).unwrap();
        round_trip(sym);
    }
    let bars = imb::encode(b"01234567094987654321", b"").unwrap();
    assert_eq!(bars.len(), 65);
    assert_eq!(
        imb::decode(&bars),
        Ok((b"01234567094987654321".to_vec(), Vec::new()))
    );
}

#[test]
fn imb_first_example() {
    let bars = imb::encode(b"01234567094987654321", b"").unwrap();
    assert_eq!(
        letters(&bars),
        "ATTFATTDTTADTAATTDTDTATTDAFDDFADFDFTFFFFFTATFAAAATDFFTDAADFTFDTDT"
    );
}

#[test]
fn postal_build_errors() {
    let enc = PostalEncoder::new();
    assert_eq!(enc.build_postnet(""), Err(Error::InvalidData));
    assert_eq!(enc.build_planet("12a"), Err(Error::InvalidData));
    assert_eq!(enc.build_rm4scc("ab"), Err(Error::InvalidData));
    assert_eq!(enc.build_kix(""), Err(Error::InvalidData));
    assert_eq!(enc.build_imb("0123", ""), Err(Error::InvalidData));
    assert_eq!(enc.build_imb("09234567094987654321", ""), Err(Error::InvalidData));
    assert_eq!(enc.build_imb("01234567094987654321", "123"), Err(Error::InvalidData));
}

#[test]
fn postal_encode_errors() {
    let enc = PostalEncoder::new();
    let mut sym = enc.build_postnet("123").unwrap();
    sym.symbology = Symbology::GridMatrix;
    assert_eq!(enc.encode(&sym), Err(Error::Unsupported));
    let mut sym = enc.build_postnet("123").unwrap();
    sym.meta = SymbolMeta::Postal(PostalMeta::new(PostalVariant::Planet));
    assert_eq!(enc.encode(&sym), Err(Error::InvalidParameter));
}

#[test]
fn postal_decode_errors() {
    let dec = PostalDecoder::new();
    assert_eq!(dec.decode(&Encoding::Linear(LinearPattern::new())), Err(Error::Unsupported));
    assert_eq!(dec.decode(&Encoding::Matrix(BitMatrix::new(4, 3, 0))), Err(Error::Undecodable));
    assert_eq!(dec.decode(&Encoding::Matrix(BitMatrix::new(5, 2, 0))), Err(Error::Undecodable));
    // three bars with no tracker modules
    assert_eq!(dec.decode(&Encoding::Matrix(BitMatrix::new(5, 3, 0))), Err(Error::Undecodable));
}
