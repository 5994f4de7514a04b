use nyx::dither::{dither_idx, dither_threshold, DITHER_SIZE};

#[test]
fn dither_table_is_permutation_of_0_to_15() {
    let mut seen = [false; 16];
    for i in 0..16usize {
        let t = dither_threshold(i) as usize;
        assert!(t < 16);
        assert!(!seen[t], "threshold {} appears twice", t);
        seen[t] = true;
    }
    for v in 0..16usize {
        assert!(seen[v], "threshold {} missing", v);
    }
}

#[test]
fn dither_table_expected_values() {
    let expected: [u8; 16] = [0, 8, 2, 10, 12, 4, 14, 6, 3, 11, 1, 9, 15, 7, 13, 5];
    for i in 0..16usize {
        assert_eq!(dither_threshold(i), expected[i]);
    }
}

#[test]
fn dither_idx_tiles_by_modulo_four() {
    assert_eq!(DITHER_SIZE, 4);
    assert_eq!(dither_idx(0, 0), 0);
    assert_eq!(dither_idx(3, 0), 3);
    assert_eq!(dither_idx(0, 3), 12);
    assert_eq!(dither_idx(2, 2), 10);
    assert_eq!(dither_idx(4, 4), 0);
    assert_eq!(dither_idx(7, 5), 7);
    assert_eq!(dither_idx(123, 456), dither_idx(123 % 4, 456 % 4));
}
