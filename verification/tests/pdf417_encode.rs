use anyd::codes::pdf417::encode::{choose_dimensions, row_indicators};
use anyd::codes::pdf417::{EcLevel, Pdf417Encoder, Pdf417Meta};
use anyd::error::Error;
use anyd::segment::Segment;
use anyd::symbol::SymbolMeta;
use anyd::symbology::Symbology;

#[test]
fn indicator_formulas_match_spec() {
    // Cluster 0 encodes (rows-1)/3 on the left and (cols-1) on the right.
    let (l, r) = row_indicators(0, 6, 4, 2);
    assert_eq!((l, r), ((6 - 1) / 3, 4 - 1));
    // Cluster 1 encodes ecLevel*3 + (rows-1)%3 on the left.
    let (l, _r) = row_indicators(1, 6, 4, 2);
    assert_eq!(l, 2 * 3 + (6 - 1) % 3);
}

#[test]
fn dimensions_fit() {
    let level = EcLevel::new(2).unwrap();
    let (cols, rows) = choose_dimensions(20, level, None).unwrap();
    assert!((1..=30).contains(&cols));
    assert!((3..=90).contains(&rows));
    let n = cols * rows - level.ec_codewords();
    assert!(n > 20);
}

#[test]
fn ec_levels_and_codeword_counts() {
    let expected = [2usize, 4, 8, 16, 32, 64, 128, 256, 512];
    for (lvl, &k) in expected.iter().enumerate() {
        let level = EcLevel::new(lvl as u8).unwrap();
        assert_eq!(level.level(), lvl as u8);
        assert_eq!(level.ec_codewords(), k);
    }
    assert!(EcLevel::new(9).is_none());
    let meta = Pdf417Meta::default();
    assert_eq!((meta.rows, meta.columns, meta.ec_level.level()), (3, 1, 0));
}

#[test]
fn dimensions_prefer_least_padding_then_width() {
    // 20 source codewords at level 2: 29 codewords in all, a prime, so only one
    // column of 29 rows wastes nothing.
    let level = EcLevel::new(2).unwrap();
    assert_eq!(choose_dimensions(20, level, None), Ok((1, 29)));
    // 3 source codewords at level 0: 6 in all; one column of 6 and two of 3 both
    // waste nothing, and the wider wins.
    let level0 = EcLevel::new(0).unwrap();
    assert_eq!(choose_dimensions(3, level0, None), Ok((2, 3)));
    // Explicit columns: rows follow, at least three.
    assert_eq!(choose_dimensions(3, level0, Some(4)), Ok((4, 3)));
    assert_eq!(choose_dimensions(3, level0, Some(31)), Err(Error::Capacity));
    assert_eq!(choose_dimensions(3, level0, Some(0)), Err(Error::Capacity));
    // Too much data for any geometry.
    assert_eq!(choose_dimensions(928, level0, None), Err(Error::Capacity));
}

#[test]
fn build_pins_geometry_and_level() {
    let enc = Pdf417Encoder::new();
    let level = EcLevel::new(0).unwrap();
    let sym = enc.build_text("ABC", level).unwrap();
    assert_eq!(sym.symbology, Symbology::Pdf417);
    assert_eq!(sym.segments, vec![Segment::alphanumeric(b"ABC".to_vec())]);
    match sym.meta {
        SymbolMeta::Pdf417(m) => {
            assert_eq!((m.columns, m.rows), (2, 3));
            assert_eq!(m.ec_level, level);
        }
        _ => panic!("expected PDF417 parameters"),
    }
    let sized = enc
        .build_sized(vec![Segment::alphanumeric(b"ABC".to_vec())], level, Some(4))
        .unwrap();
    match sized.meta {
        SymbolMeta::Pdf417(m) => assert_eq!((m.columns, m.rows), (4, 3)),
        _ => panic!("expected PDF417 parameters"),
    }
    assert_eq!(
        enc.build_sized(vec![Segment::alphanumeric(b"ABC".to_vec())], level, Some(31)),
        Err(Error::Capacity)
    );
}
