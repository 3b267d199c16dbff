use anyd::codes::gridmatrix::tables::{blocks, smallest_version_for};
use anyd::codes::gridmatrix::{EcLevel, Version};

const ALL: [EcLevel; 5] = [EcLevel::L1, EcLevel::L2, EcLevel::L3, EcLevel::L4, EcLevel::L5];

#[test]
fn geometry_matches_zint_tables() {
    let totals = [18, 50, 98, 162, 242, 338, 450, 578, 722, 882, 1058, 1250, 1458];
    for v in 1..=13u8 {
        let ver = Version::new(v).unwrap();
        assert_eq!(ver.total_codewords(), totals[v as usize - 1], "total codewords for v{v}");
        assert_eq!(ver.size(), 6 + 12 * v as usize, "size for v{v}");
        for ec in ALL {
            let blocks = blocks(ver, ec);
            if ver.data_codewords(ec) == 0 {
                continue;
            }
            let total: usize = blocks.iter().map(|b| b.total).sum();
            let data: usize = blocks.iter().map(|b| b.data()).sum();
            assert_eq!(total, ver.total_codewords(), "block total v{v} {ec:?}");
            assert_eq!(data, ver.data_codewords(ec), "block data v{v} {ec:?}");
            assert!(blocks.iter().all(|b| b.ec <= b.total), "ec exceeds block v{v} {ec:?}");
        }
    }
}

#[test]
fn levels_and_smallest_version() {
    for n in 1..=5usize {
        assert_eq!(EcLevel::from_number(n).unwrap().number(), n);
    }
    assert_eq!(EcLevel::from_number(0), None);
    assert_eq!(Version::new(0), None);
    assert_eq!(Version::new(14), None);
    assert_eq!(smallest_version_for(1, EcLevel::L1).unwrap().number(), 2);
    assert_eq!(smallest_version_for(15, EcLevel::L2).unwrap().number(), 1);
    assert_eq!(smallest_version_for(16, EcLevel::L2).unwrap().number(), 2);
    assert!(smallest_version_for(2000, EcLevel::L5).is_none());
    assert_eq!(Version::new(3).unwrap().macromodules_per_dim(), 7);
}
