use anyd::codes::gridmatrix::layout::{
    layer_ids, macromodule_index, read_codewords, read_ec_level, render, QUIET_ZONE,
};
use anyd::codes::gridmatrix::{EcLevel, Version};

const ALL: [EcLevel; 5] = [EcLevel::L1, EcLevel::L2, EcLevel::L3, EcLevel::L4, EcLevel::L5];

/// Every macromodule maps to a distinct codeword pair covering the whole stream.
#[test]
fn macromodule_indices_are_a_permutation() {
    for v in 1..=13u8 {
        let ver = Version::new(v).unwrap();
        let mpd = ver.macromodules_per_dim();
        let mut seen = vec![false; ver.total_codewords()];
        for y in 0..mpd {
            for x in 0..mpd {
                let idx = macromodule_index(mpd, x, y);
                assert!(idx + 1 < seen.len(), "index out of range v{v}");
                assert!(!seen[idx], "duplicate pair index v{v}");
                assert!(!seen[idx + 1], "duplicate pair index v{v}");
                seen[idx] = true;
                seen[idx + 1] = true;
            }
        }
        assert!(seen.iter().all(|&s| s), "not all codewords covered v{v}");
    }
}

/// Codeword placement round-trips through the matrix for every version.
#[test]
fn codewords_round_trip() {
    for v in 1..=13u8 {
        let ver = Version::new(v).unwrap();
        let total = ver.total_codewords();
        let cws: Vec<u8> = (0..total).map(|i| ((i * 37 + 5) % 128) as u8).collect();
        let m = render(ver, EcLevel::L3, &cws);
        assert_eq!(read_codewords(ver, &m), cws, "codeword round trip v{v}");
        assert_eq!(read_ec_level(ver, &m), Some(EcLevel::L3), "ec v{v}");
    }
}

/// The EC level survives its own round trip for every usable (version, level).
#[test]
fn ec_level_round_trips() {
    for v in 1..=13u8 {
        let ver = Version::new(v).unwrap();
        let total = ver.total_codewords();
        let cws: Vec<u8> = vec![0u8; total];
        for ec in ALL {
            if ver.data_codewords(ec) == 0 {
                continue;
            }
            let m = render(ver, ec, &cws);
            assert_eq!(read_ec_level(ver, &m), Some(ec), "v{v} {ec:?}");
        }
    }
}

#[test]
fn centre_macromodule_comes_first() {
    // Version 1 has a 3x3 grid; the centre macromodule carries codewords 0 and 1.
    assert_eq!(macromodule_index(3, 1, 1), 0);
    for v in 1..=13u8 {
        let ver = Version::new(v).unwrap();
        let mpd = ver.macromodules_per_dim();
        assert_eq!(macromodule_index(mpd, mpd / 2, mpd / 2), 0);
    }
}

#[test]
fn layer_ids_have_one_entry_per_ring() {
    for layers in 1..=13usize {
        for ec in 1..=5usize {
            let ids = layer_ids(layers, ec);
            assert_eq!(ids.len(), layers + 1);
            assert!(ids.iter().all(|&i| i < 4));
        }
    }
}

#[test]
fn rendered_matrix_has_the_symbol_size() {
    let ver = Version::new(2).unwrap();
    let cws = vec![0u8; ver.total_codewords()];
    let m = render(ver, EcLevel::L1, &cws);
    assert_eq!(m.width, 30);
    assert_eq!(m.height, 30);
    assert_eq!(m.quiet_zone, QUIET_ZONE);
}

#[test]
fn blank_matrix_reads_as_first_best_level() {
    // All ring ids read as 0: ring 1 of version 1 expects 0 at levels 2 and 5,
    // so the first of the two best-scoring levels wins.
    let ver = Version::new(1).unwrap();
    let m = anyd::output::BitMatrix::new(18, 18, QUIET_ZONE);
    assert_eq!(read_ec_level(ver, &m), Some(EcLevel::L2));
}
