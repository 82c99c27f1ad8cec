//! Temporal filtering.

use aom_encode::temporal_filter::{
    apply_temporal_filter, compute_luma_sq_error_sum, compute_square_diff, estimate_noise_sums,
    get_num_blocks, is_temporal_filter_on, od_divu, shown_frame_blocks,
    tf_apply_temporal_filter_self, tf_determine_block_partition, tf_normalize_filtered_frame,
    TfFilterParams, TfPixel, TfPixelMut, TfPlane, TfPlaneMut,
};

#[test]
fn depth_of_samples() {
    assert!(!<u8 as TfPixel>::high_bitdepth() && <u16 as TfPixel>::high_bitdepth());
    assert_eq!((200u8.value(), 900u16.value()), (200, 900));
    assert_eq!(<u16 as TfPixelMut>::from_value(900), 900u16);
}

#[test]
fn squared_differences() {
    let a = [1u8, 2, 0, 9, 9, 0];
    let b = [4u8, 2, 5, 0];
    let mut out = [7u32; 5];
    compute_square_diff(&a, 3, &b, 2, 2, 2, &mut out);
    assert_eq!(out, [9, 0, 16, 81, 7]);
}

#[test]
fn luma_errors_add_up_over_a_chroma_sample() {
    let diff: Vec<u32> = (0..16).collect();
    let mut sum = vec![100u32; 4];
    compute_luma_sq_error_sum(&diff, &mut sum, 2, 2, 1, 1);
    assert_eq!(sum, vec![110, 118, 142, 150]);
}

#[test]
fn noise_of_flat_and_small_planes() {
    let flat = vec![50u8; 36];
    let s = estimate_noise_sums(&flat, 6, 6, 6, 0, 50).unwrap();
    assert_eq!((s.accum, s.count), (0, 16));
    // Nine inner samples are too few, two rows have none.
    assert!(estimate_noise_sums(&flat, 5, 5, 6, 0, 50).is_none());
    assert!(estimate_noise_sums(&flat, 2, 18, 18, 0, 50).is_none());
    // One sample that differs by one: four times itself, twice each of its
    // neighbours, once each corner.
    let mut dot = flat;
    dot[2 * 6 + 2] = 51;
    let s = estimate_noise_sums(&dot, 6, 6, 6, 0, 50).unwrap();
    assert_eq!((s.accum, s.count), (4 + 4 * 2 + 4, 16));
}

#[test]
fn edges_are_left_out_of_the_noise() {
    let mut src = vec![0u8; 8 * 8];
    for r in 0..8 {
        for c in 4..8 {
            src[r * 8 + c] = 200;
        }
    }
    // The two columns at the edge are left out of six.
    let s = estimate_noise_sums(&src, 8, 8, 8, 0, 50).unwrap();
    assert_eq!((s.accum, s.count), (0, 24));
}

fn small_params() -> TfFilterParams {
    TfFilterParams {
        block_width: 4,
        block_height: 4,
        mb_row: 0,
        mb_col: 1,
        subsampling_x: [0; 3],
        subsampling_y: [0; 3],
        bd: 8,
        q_factor: 0,
        filter_strength: 0,
        wgt_calc_lvl: 0,
    }
}

#[test]
fn predictions_are_blended_by_weight() {
    let data = vec![20u8; 32];
    let planes = [TfPlane {
        data: &data,
        stride: 8,
        crop_width: 8,
        crop_height: 4,
    }];
    let pred = [23u8; 16];
    let mut accum = vec![5u32; 16];
    let mut count = vec![1u16; 16];
    // The window holds 25 squares of 3.
    let weight = |plane: usize, sum: u64, num_ref: i32, _sub: usize| -> i32 {
        if plane == 0 && sum == 225 && num_ref == 25 {
            10
        } else {
            1
        }
    };
    apply_temporal_filter(&planes, &small_params(), &pred, &mut accum, &mut count, &weight);
    assert_eq!(accum, vec![5 + 230; 16]);
    assert_eq!(count, vec![11; 16]);

    let by_subblock = |_: usize, _: u64, _: i32, sub: usize| -> i32 { sub as i32 };
    let mut accum = vec![0u32; 16];
    let mut count = vec![0u16; 16];
    apply_temporal_filter(&planes, &small_params(), &pred, &mut accum, &mut count, &by_subblock);
    assert_eq!(count, vec![0, 1, 4, 5, 2, 3, 6, 7, 8, 9, 12, 13, 10, 11, 14, 15]);
}

#[test]
fn blocks_are_merged_where_splitting_gains_little() {
    let mids = [(1i16, 1i16), (2, 2), (3, 3), (4, 4)];
    let mut mvs = [(9i16, 9i16); 16];
    let mut mses = [100i32; 16];
    tf_determine_block_partition((7, 7), 5000, &mids, &[100, 107, 5000, 108], &mut mvs, &mut mses);
    // 15 * 100 and 15 * 106 are within 4 * 400; 14 * 107 is too.
    assert_eq!(mvs[0], (1, 1));
    assert_eq!((mvs[4], mses[4]), ((2, 2), 107));
    assert_eq!(mvs[8], (9, 9));
    let mut mvs = [(9i16, 9i16); 16];
    let mut mses = [100i32; 16];
    tf_determine_block_partition((7, 7), 100, &mids, &[5000; 4], &mut mvs, &mut mses);
    assert_eq!(mvs, [(7, 7); 16]);
    assert_eq!(mses, [100; 16]);
}

#[test]
fn own_frame_comes_back_from_its_blend() {
    let data: Vec<u8> = (0..64).map(|i| (3 * i) as u8).collect();
    let planes = [TfPlane {
        data: &data,
        stride: 8,
        crop_width: 8,
        crop_height: 8,
    }];
    let mut accum = vec![0u32; 16];
    let mut count = vec![0u16; 16];
    tf_apply_temporal_filter_self(&planes, 4, 4, 1, 1, &[0; 3], &[0; 3], &mut accum, &mut count);
    assert_eq!((accum[0], count[0]), (1000 * 108, 1000));
    let mut out = vec![0u8; 64];
    let mut result = [TfPlaneMut {
        data: &mut out,
        stride: 8,
    }];
    tf_normalize_filtered_frame(&mut result, 4, 4, 1, 1, &[0; 3], &[0; 3], &accum, &count);
    for r in 0..8 {
        for c in 0..8 {
            let want = if r >= 4 && c >= 4 { data[r * 8 + c] } else { 0 };
            assert_eq!(out[r * 8 + c], want);
        }
    }
}

#[test]
fn counts_and_switches() {
    assert_eq!(od_divu(99, 10), 9);
    assert!(is_temporal_filter_on(7, 2));
    assert!(!is_temporal_filter_on(0, 19) && !is_temporal_filter_on(7, 1));
    assert_eq!(get_num_blocks(65, 64), 2);
    assert_eq!(shown_frame_blocks(130, 64, true, false), Some(3));
    assert_eq!(shown_frame_blocks(0, 0, true, false), Some(1));
    assert_eq!(shown_frame_blocks(1 << 21, 1 << 20, true, false), Some(1 << 29));
    assert_eq!(shown_frame_blocks(-200, 64, true, false), Some(1));
    assert_eq!(shown_frame_blocks(i32::MAX, i32::MAX, false, false), None);
    assert_eq!(shown_frame_blocks(130, 64, false, false), None);
    assert_eq!(shown_frame_blocks(130, 64, true, true), None);
}
