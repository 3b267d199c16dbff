use anyd::codes::dotcode::tables::{
    codeword_for_pattern, corner_indices, data_length_for_size, is_corner, min_dots_for,
    DC_DOT_PATTERNS,
};
use anyd::codes::dotcode::{DotCodeDecoder, DotCodeEncoder};
use anyd::error::Error;
use anyd::output::{Encoding, LinearPattern};

#[test]
fn corner_indices_are_the_corner_cells() {
    for (w, h) in [(6usize, 5usize), (5, 6), (21, 14), (14, 21), (200, 199)] {
        let mut expected: Vec<usize> = (0..h)
            .flat_map(|r| (0..w).map(move |c| (c, r)))
            .filter(|&(c, r)| (c + r) % 2 == 0 && is_corner(c, r, w, h))
            .map(|(c, r)| r * w + c)
            .collect();
        expected.sort_unstable();
        assert_eq!(corner_indices(w, h).to_vec(), expected, "{w}x{h}");
    }
}

#[test]
fn patterns_are_distinct_and_9bit() {
    for (i, &p) in DC_DOT_PATTERNS.iter().enumerate() {
        assert!(p <= 0x1ff, "pattern {i} exceeds 9 bits");
        assert_eq!(codeword_for_pattern(p), Some(i as u8));
    }
    assert_eq!(codeword_for_pattern(0x1ff), None);
}

#[test]
fn dot_budget() {
    assert_eq!(min_dots_for(1), 9 * 4 + 2);
    assert_eq!(min_dots_for(10), 9 * 18 + 2);
    assert_eq!(data_length_for_size(2, 2), None);
    let d = data_length_for_size(30, 20).unwrap();
    assert!(min_dots_for(d) <= 300 && min_dots_for(d + 1) > 300);
}

#[test]
fn dotcode_entry_points_are_unsupported() {
    let e = Encoding::Linear(LinearPattern::new());
    assert_eq!(DotCodeDecoder::new().decode(&e).unwrap_err(), Error::Unsupported);
    let _ = DotCodeEncoder::new();
}
