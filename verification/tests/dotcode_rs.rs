use anyd::codes::dotcode::rs::{generator, pow, rsdecode, rsencode, ALPHA, GF};

#[test]
fn corrects_errors_and_erasures_up_to_capacity() {
    let mut seed = 0xD07C_0DE5_0113_0001u64;
    let mut next = move |n: usize| {
        seed ^= seed << 13;
        seed ^= seed >> 7;
        seed ^= seed << 17;
        (seed % n as u64) as usize
    };
    for nd in [1usize, 2, 9, 40, 74, 75, 150, 300] {
        let nc = 3 + nd / 2;
        let nw = nd + nc;
        let step = nw.div_ceil(112);
        let mut clean: Vec<u8> = (0..nd).map(|_| next(113) as u8).collect();
        clean.extend(core::iter::repeat_n(0u8, nc));
        rsencode(nd, nc, &mut clean);
        let nc_b = nw.div_ceil(step) - nd.div_ceil(step);
        for erasures in [0, 1, nc_b / 2, nc_b] {
            let errors = (nc_b - erasures) / 2;
            for over in [false, true] {
                let mut wd = clean.clone();
                let mut erased = vec![false; nw];
                let count = erasures + errors + usize::from(over);
                if count > nw.div_ceil(step) {
                    continue;
                }
                for k in 0..count {
                    let p = k * step;
                    wd[p] = ((wd[p] as usize + 1 + next(112)) % 113) as u8;
                    erased[p] = k < erasures;
                }
                let ok = rsdecode(nd, nc, &mut wd, &erased);
                if over {
                    assert!(!ok || wd != clean, "nd={nd} e={erasures}");
                } else {
                    assert!(ok, "nd={nd} e={erasures} t={errors}");
                    assert_eq!(wd, clean, "nd={nd} e={erasures} t={errors}");
                }
            }
        }
    }
}

#[test]
fn generator_matches_zint_coefs() {
    assert_eq!(generator(3), vec![1, 74, 12, 62]);
    assert_eq!(generator(4), vec![1, 106, 7, 107, 63]);
    assert_eq!(generator(5), vec![1, 89, 13, 101, 52, 59]);
    assert_eq!(generator(6), vec![1, 38, 107, 3, 99, 6, 42]);
    assert_eq!(generator(7), vec![1, 111, 56, 17, 92, 1, 28, 15]);
}

#[test]
fn check_words_zero_syndromes() {
    let data = [50u8, 12, 100, 7, 33, 90];
    let nc = 3 + data.len() / 2;
    let mut wd = data.to_vec();
    wd.extend(core::iter::repeat_n(0u8, nc));
    rsencode(data.len(), nc, &mut wd);
    for i in 1..=nc as i32 {
        let root = pow(ALPHA, i);
        let mut s = 0i32;
        for &c in &wd {
            s = (s * root + c as i32) % GF;
        }
        assert_eq!(s, 0, "syndrome at root 3^{i} is non-zero");
    }
}

#[test]
fn rsencode_without_data_words_gives_zero_checks() {
    let mut wd = vec![5u8, 5, 5];
    rsencode(0, 3, &mut wd);
    assert_eq!(wd, vec![0, 0, 0]);
}
