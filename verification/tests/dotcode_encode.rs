use anyd::codes::dotcode::decode::codewords_to_segments;
use anyd::codes::dotcode::encode::{
    add_padding, encode_message, render_grid, select_mask, select_size, SizeEstimate,
};
use anyd::codes::dotcode::score::score_array;
use anyd::codes::dotcode::{DotCodeDecoder, DotCodeEncoder, MIN_SIZE};
use anyd::output::Encoding;
use anyd::segment::Mode;

/// The floating-point first guess of an automatic size, as the library's callers
/// compute it.
fn estimate(data_length: usize) -> SizeEstimate {
    let min_area = (9 * (data_length + 3 + data_length / 2) + 2) * 2;
    let h = ((min_area as f64 * 0.666).sqrt()) as f32;
    let w = ((min_area as f64 * 1.5).sqrt()) as f32;
    let height = h as usize;
    let width = w as usize;
    let widen = (h as f64) * (width as f64) < (w as f64) * (height as f64);
    SizeEstimate { height, width, widen }
}

fn size(len: usize, width: Option<usize>) -> (usize, usize) {
    select_size(len, width, estimate(len)).unwrap()
}

fn dump(data: &[u8], eci: u32, gs1: bool, width: Option<usize>) -> Vec<u8> {
    let (cw, bf) = encode_message(data, eci, gs1, false);
    let (w, h) = size(cw.len(), width);
    add_padding(cw, w, h, bf)
}

#[test]
fn zint_input_vectors() {
    assert_eq!(dump(b"A", 0, false, Some(13)), vec![102, 33, 106]);
    assert_eq!(dump(b"\x00", 0, false, Some(13)), vec![101, 64, 106]);
    assert_eq!(dump(b"\x7f", 0, false, Some(13)), vec![102, 95, 106]);
    assert_eq!(dump(b"1712345610", 0, false, None), vec![107, 100, 12, 34, 56]);
    assert_eq!(
        dump(b"ABCDE12345678", 0, false, None),
        vec![106, 33, 34, 35, 36, 37, 105, 12, 34, 56, 78]
    );
    assert_eq!(
        dump(b"\x00ABCD1234567890", 0, false, None),
        vec![101, 64, 33, 34, 35, 36, 106, 12, 34, 56, 78, 90, 106]
    );
    assert_eq!(dump(b"00", 0, false, Some(13)), vec![107, 0, 106]);
    assert_eq!(
        dump(b"99aA[{00\x00", 0, false, None),
        vec![107, 99, 106, 65, 33, 59, 91, 16, 16, 101, 64]
    );
    assert_eq!(
        dump(b"abcde\x80\x81\x82\x83\x84\xff", 0, false, None),
        vec![106, 65, 66, 67, 68, 69, 112, 49, 90, 53, 33, 90, 95, 2, 49]
    );
    assert_eq!(
        dump(b"\x80\x81\x82\x83\x31\x32\x33\x34", 0, false, None),
        vec![112, 19, 86, 10, 89, 44, 103, 12, 34]
    );
    assert_eq!(dump(b"[)>\x1e05\x1dA\x1e\x04", 0, false, None), vec![106, 97, 33]);
}

#[test]
fn zint_eci_vectors() {
    assert_eq!(encode_message(b"A", 3, false, false).0, vec![108, 3, 102, 33]);
    assert_eq!(encode_message(b"A", 899, false, false).0, vec![108, 40, 7, 68, 102, 33]);
    assert_eq!(encode_message(b"A", 811799, false, false).0, vec![108, 103, 64, 80, 102, 33]);
}

#[test]
fn size_parity_is_odd() {
    for len in 1..40 {
        let (w, h) = size(len, None);
        assert_eq!((w + h) % 2, 1, "len {len}: {w}x{h} not odd parity");
        assert!(w >= MIN_SIZE && h >= MIN_SIZE);
    }
}

fn grid_to_rows(grid: &[bool], width: usize, height: usize) -> Vec<String> {
    (0..height)
        .map(|r| (0..width).map(|c| if grid[r * width + c] { '1' } else { '0' }).collect())
        .collect()
}

const GS1_REDUCED: &[u8] = b"1707062010ABC123456";

#[test]
fn rev4_figure5_mask0() {
    let expected = [
        "10101000100010000000001",
        "01000101010001010000000",
        "00100010001000101000100",
        "01010001010000000101010",
        "00001000100010100010101",
        "00000101010101010000010",
        "00100010101000000010001",
        "00010100000101000100010",
        "00001000001000001010101",
        "01010101010001000001010",
        "10100000100010001000101",
        "01000100000100010101000",
        "10000010000010100010001",
        "00010000010100010101010",
        "10101000001000101010001",
        "01000001010101010000010",
    ];
    let (cw, bf) = encode_message(GS1_REDUCED, 0, true, false);
    let (w, h) = size(cw.len(), None);
    assert_eq!((w, h), (23, 16), "size mismatch");
    let padded = add_padding(cw, w, h, bf);
    let grid = render_grid(&padded, w, h, 0);
    assert_eq!(grid_to_rows(&grid, w, h), expected);
}

#[test]
fn rev4_figure6_auto_mask() {
    let expected = [
        "10000000001010001000101",
        "01010101000100000101000",
        "00100010000000100000001",
        "01010001000001000001000",
        "10101010100000001010101",
        "00000100010100000100010",
        "00000000001010101010001",
        "00010001010001000001000",
        "00101010101000001010001",
        "01000100000001010000000",
        "10101000101000101000001",
        "00010101000100010101010",
        "10001000001010100000101",
        "01010001010001000001010",
        "10000010101010100010101",
        "01000101000101010101010",
    ];
    let (cw, bf) = encode_message(GS1_REDUCED, 0, true, false);
    let (w, h) = size(cw.len(), None);
    let padded = add_padding(cw, w, h, bf);
    let mask = select_mask(&padded, w, h);
    assert_eq!(mask, 1, "auto mask should resolve to 1");
    let grid = render_grid(&padded, w, h, mask);
    assert_eq!(grid_to_rows(&grid, w, h), expected);
}

#[test]
fn reader_init_leads_with_fnc3() {
    let (cw, _) = encode_message(b"12", 0, false, true);
    assert_eq!(cw[0], 109);
    assert!(cw.iter().all(|&c| c < 113));
}

#[test]
fn user_width_out_of_range_is_rejected() {
    let enc = DotCodeEncoder::new();
    assert!(enc.build_bytes_width(b"A", 4).is_err());
    assert!(enc.build_bytes_width(b"A", 201).is_err());
    assert!(enc.build_bytes_width(b"", 13).is_err());
}

#[test]
fn oversized_user_width_height_is_capacity() {
    // 13 columns cannot hold this much: the height would exceed 200.
    let data = vec![b'a'; 900];
    let r = select_size(data.len(), Some(13), estimate(data.len()));
    assert_eq!(r, Err(anyd::error::Error::Capacity));
}

#[test]
fn padding_uses_fnc3_after_binary() {
    let padded = add_padding(vec![1, 2], 13, 13, true);
    assert_eq!(padded[2], 109);
    assert!(padded[3..].iter().all(|&c| c == 106));
}

#[test]
fn blank_grid_scores_unlit_edge() {
    let grid = vec![false; 13 * 12];
    assert_eq!(score_array(&grid, 12, 13), -99999);
}

#[test]
fn dotcode_round_trips_through_the_matrix() {
    let enc = DotCodeEncoder::new();
    let dec = DotCodeDecoder::new();
    for data in [&b"HELLO dotcode 12345"[..], b"\x00\x01abc\x80\xff99", b"1712345610"] {
        let sym = enc.build_bytes_width(data, 21).unwrap();
        let encoding = enc.encode(&sym).unwrap();
        let back = dec.decode(&encoding).unwrap();
        assert_eq!(back.meta, sym.meta);
        let again = enc.encode(&back).unwrap();
        assert_eq!(again, encoding);
    }
}

#[test]
fn segments_are_rebuilt_from_codewords() {
    let segs = codewords_to_segments(&[107, 12, 34, 106, 33, 34]);
    assert_eq!(segs.len(), 1);
    assert_eq!(segs[0].mode, Mode::Byte);
    assert_eq!(segs[0].data, b"1234AB".to_vec());
}

#[test]
fn eci_codewords_become_an_eci_segment() {
    let segs = codewords_to_segments(&[108, 3, 106, 33]);
    assert_eq!(segs[0].mode, Mode::Eci(3));
    assert_eq!(segs[1].data, b"A".to_vec());
}

#[test]
fn decoding_rejects_bad_shapes() {
    let dec = DotCodeDecoder::new();
    let m = anyd::output::BitMatrix::new(4, 5, 0);
    assert!(dec.decode_matrix(&m).is_err());
    let m = anyd::output::BitMatrix::new(10, 10, 0);
    assert!(dec.decode_matrix(&m).is_err());
    let r = dec.decode(&Encoding::Linear(anyd::output::LinearPattern::new()));
    assert!(r.is_err());
}
