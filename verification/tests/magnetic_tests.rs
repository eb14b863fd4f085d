use omegaflow::magnetic::{
    coeff_count as count_of,
    block_coeffs, coeff_count, degree_for_coeff_count, interleave_coeffs, pad_words,
    stream_coeff_count,
};

#[test]
fn coefficient_counts_of_degrees() {
    assert_eq!(coeff_count(0), 0);
    assert_eq!(coeff_count(1), 2);
    assert_eq!(coeff_count(12), 90);
    assert_eq!(coeff_count(133), 9044);
    assert_eq!(coeff_count(-3), 0);
    assert_eq!(coeff_count(-1), -1);
    assert_eq!(coeff_count(-5), 5);
}

#[test]
fn degree_of_the_wmm_table() {
    assert_eq!(degree_for_coeff_count(90), 12);
    assert_eq!(degree_for_coeff_count(0), 0);
    assert_eq!(degree_for_coeff_count(2), 1);
}

#[test]
fn degree_of_a_count_between_degrees_rounds_down() {
    assert_eq!(degree_for_coeff_count(89), 11);
    assert_eq!(degree_for_coeff_count(91), 12);
    assert_eq!(degree_for_coeff_count(1), 0);
}

fn float_degree(len: usize) -> i32 {
    ((((8 * len as i32 + 9) as f64).sqrt() as i32) - 3) / 2
}

#[test]
fn degree_matches_float_square_root() {
    for len in 0..1_000_000usize {
        assert_eq!(degree_for_coeff_count(len), float_degree(len), "len {}", len);
    }
}

#[test]
fn degree_matches_float_square_root_next_to_every_square() {
    let max_len = (i32::MAX as usize - 9) / 8;
    for k in 3..=46341usize {
        let m = k * k;
        let base = m.saturating_sub(9) / 8;
        for len in base.saturating_sub(2)..=base + 2 {
            if len <= max_len {
                assert_eq!(degree_for_coeff_count(len), float_degree(len), "len {}", len);
            }
        }
    }
    for len in max_len - 1000..=max_len {
        assert_eq!(degree_for_coeff_count(len), float_degree(len), "len {}", len);
    }
}

#[test]
fn count_then_degree_roundtrip() {
    for n in 0..200 {
        assert_eq!(degree_for_coeff_count(coeff_count(n) as usize), n);
    }
}

#[test]
fn stream_count_takes_the_smaller_degree() {
    assert_eq!(stream_coeff_count(138, 12), 90);
    assert_eq!(stream_coeff_count(6, 12), 27);
}

#[test]
fn padding_cuts_and_fills() {
    assert_eq!(pad_words(&[1, 2, 3], 5), vec![1, 2, 3, 0, 0]);
    assert_eq!(pad_words(&[1, 2, 3], 2), vec![1, 2]);
    assert_eq!(pad_words(&[], 0), Vec::<u32>::new());
}

#[test]
fn interleave_puts_tables_side_by_side() {
    let out = interleave_coeffs(&[1, 2], &[3, 4], &[5], &[7, 8, 9], 3);
    assert_eq!(out, vec![1, 3, 5, 7, 2, 4, 0, 8, 0, 0, 0, 9]);
}

#[test]
fn blocks_put_tables_one_after_another() {
    let out = block_coeffs(&[1, 2], &[3, 4], &[5], &[7, 8, 9], 3);
    assert_eq!(out, vec![1, 2, 0, 3, 4, 0, 5, 0, 0, 7, 8, 9]);
}

#[test]
fn interleaved_is_transposed_blocks() {
    let g = [10, 11, 12, 13];
    let h = [20, 21];
    let gs = [30, 31, 32, 33, 34, 35];
    let hs = [40];
    let count = 5;
    let a = interleave_coeffs(&g, &h, &gs, &hs, count);
    let b = block_coeffs(&g, &h, &gs, &hs, count);
    for i in 0..count {
        for k in 0..4 {
            assert_eq!(a[4 * i + k], b[k * count + i]);
        }
    }
}

#[test]
fn smaller_request_streams_the_front_of_a_larger_one() {
    let g: Vec<u32> = (0..90).collect();
    let h: Vec<u32> = (100..190).collect();
    let gs: Vec<u32> = (200..290).collect();
    let hs: Vec<u32> = (300..390).collect();
    let small = interleave_coeffs(&g, &h, &gs, &hs, stream_coeff_count(4, 12) as usize);
    let large = interleave_coeffs(&g, &h, &gs, &hs, stream_coeff_count(9, 12) as usize);
    assert_eq!(small.len(), 4 * count_of(4) as usize);
    assert_eq!(&large[..small.len()], &small[..]);
}

#[test]
fn requests_above_the_model_degree_stream_the_same() {
    let g: Vec<u32> = (0..90).collect();
    let a = interleave_coeffs(&g, &g, &g, &g, stream_coeff_count(13, 12) as usize);
    let b = interleave_coeffs(&g, &g, &g, &g, stream_coeff_count(138, 12) as usize);
    assert_eq!(a, b);
    assert_eq!(a.len(), 4 * 90);
}
