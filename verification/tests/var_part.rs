//! Variance-based partitioning.

use aom_encode::block::{BLOCK_16X16, BLOCK_32X32, BLOCK_64X64};
use aom_encode::var_part::{
    all_blks_inside, avg_4x4, calc_chroma_thresh_for_zeromv_skip,
    choose_var_based_partitioning_key, compute_minmax_8x8, fill_variance, fill_variance_8x8avg,
    fill_variance_8x8avg_highbd, get_force_skip_low_temp_var_small_sb, get_partition_from_stamps,
    get_variance, is_set_force_zeromv_skip_based_on_src_sad, mv_distance,
    scale_part_thresh_content, set_force_zeromv_skip_for_sb, set_low_temp_var_flag,
    set_low_temp_var_flag_64x64,
    set_ref_frame_for_partition, set_vbp_thresholds_key, MiGrid, SourceSad, VPartVar,
    VarianceTree, VbpFrame, VbpSf,
};

/// Step of the AC quantizer at index 100 and eight bits.
const AC_QUANT_100: i32 = 112;

/// Step of the AC quantizer at index 220 and eight bits.
const AC_QUANT_220: i32 = 933;

#[test]
fn kb32_force_large_intra_threshold_arms() {
    const SUB: i64 = 1280 * 720 - 1;
    const OVER: i64 = 1280 * 720;
    let off = VbpSf::default();
    let s8 = VbpSf {
        force_large_partition_blocks_intra: true,
        var_part_split_threshold_shift: 8,
        allintra: true,
    };
    let s9 = VbpSf {
        force_large_partition_blocks_intra: true,
        var_part_split_threshold_shift: 7,
        allintra: true,
    };
    let b = 120i64 * i64::from(AC_QUANT_100);
    assert!(b > 0);

    assert_eq!(
        set_vbp_thresholds_key(AC_QUANT_100, SUB, off),
        [b, b, b / 3, b >> 1, b << 2]
    );
    assert_eq!(
        set_vbp_thresholds_key(AC_QUANT_100, OVER, off),
        [b, b, b >> 2, b >> 2, b << 2]
    );

    let d = b << 1;
    assert_eq!(
        set_vbp_thresholds_key(AC_QUANT_100, SUB, s8),
        [d, d, d / 3, d >> 1, d << 2],
        "one step below the area threshold: only the base doubles"
    );
    assert_eq!(
        set_vbp_thresholds_key(AC_QUANT_100, OVER, s8),
        [d, d, d >> 1, d >> 1, d << 2],
        "one step at the area threshold: the shift changes too"
    );

    assert_eq!(
        set_vbp_thresholds_key(AC_QUANT_100, SUB, s9),
        set_vbp_thresholds_key(AC_QUANT_100, SUB, off),
        "no step below the area threshold: as if switched off"
    );
    assert_eq!(
        set_vbp_thresholds_key(AC_QUANT_100, OVER, s9),
        [b, b, b >> 1, b >> 1, b << 2],
        "no step at the area threshold: only the shift changes"
    );
    assert_ne!(
        set_vbp_thresholds_key(AC_QUANT_100, OVER, s9),
        set_vbp_thresholds_key(AC_QUANT_100, OVER, off),
    );

    assert_ne!(
        set_vbp_thresholds_key(AC_QUANT_100, SUB, off)[2],
        set_vbp_thresholds_key(AC_QUANT_100, OVER, off)[2]
    );
}

fn mi_aligned(px: i64) -> i64 {
    (px + 7) & !7
}

#[test]
fn kb28_num_pixels_is_the_crop_area_not_the_mi_area() {
    const STRADDLERS: &[(i64, i64)] = &[(1272, 724), (1274, 722), (954, 962)];
    let sfs = [
        VbpSf::default(),
        VbpSf {
            force_large_partition_blocks_intra: true,
            var_part_split_threshold_shift: 8,
            allintra: true,
        },
        VbpSf {
            force_large_partition_blocks_intra: true,
            var_part_split_threshold_shift: 7,
            allintra: true,
        },
    ];
    for &(w, h) in STRADDLERS {
        let crop_px = w * h;
        let mi_px = mi_aligned(w) * mi_aligned(h);
        assert!(
            crop_px < 1280 * 720 && mi_px >= 1280 * 720,
            "{w}x{h} must straddle the area threshold (crop {crop_px}, mi {mi_px})"
        );
        for (i, sf) in sfs.iter().enumerate() {
            let from_crop = set_vbp_thresholds_key(AC_QUANT_100, crop_px, *sf);
            let from_mi = set_vbp_thresholds_key(AC_QUANT_100, mi_px, *sf);
            assert_ne!(from_crop, from_mi, "{w}x{h} sf#{i}");
            let b = from_crop[0];
            assert_eq!(
                (from_crop[2], from_crop[3]),
                (b / 3, b >> 1),
                "{w}x{h} sf#{i}: the crop is below the area threshold"
            );
        }
    }
    for &(w, h) in &[(1280i64, 720i64), (1280, 712), (1280, 728), (1216, 768)] {
        assert_eq!(mi_aligned(w), w);
        assert_eq!(mi_aligned(h), h);
        for sf in &sfs {
            assert_eq!(
                set_vbp_thresholds_key(AC_QUANT_100, w * h, *sf),
                set_vbp_thresholds_key(AC_QUANT_100, mi_aligned(w) * mi_aligned(h), *sf)
            );
        }
    }
}

#[test]
fn get_variance_matches_definition() {
    let mut v = VPartVar {
        sum_square_error: 16 * 40 * 40,
        sum_error: 16 * 40,
        log2_count: 4,
        variance: 0,
    };
    get_variance(&mut v);
    assert_eq!(v.variance, 0);

    let mut v = VPartVar {
        sum_square_error: 10_000,
        sum_error: 100,
        log2_count: 4,
        variance: 0,
    };
    get_variance(&mut v);
    assert_eq!(v.variance, 150_000);
}

#[test]
fn flat_64_sb_stamps_four_32x32() {
    let stride = 80usize;
    let src = vec![128u16; stride * 72];
    let f = VbpFrame {
        mi_rows: 16,
        mi_cols: 16,
        tile_mi_row_end: 16,
        tile_mi_col_end: 16,
        num_pixels: 64 * 64,
        sb_size: BLOCK_64X64,
        ac_quant: AC_QUANT_100,
        ss_x: 1,
        ss_y: 1,
        sf: Default::default(),
    };
    let mut stamps = vec![0u8; 16 * 16];
    choose_var_based_partitioning_key(&mut stamps, &f, &src, 0, stride, 0, 0, false);
    for (r, c) in [(0, 0), (0, 8), (8, 0), (8, 8)] {
        assert_eq!(stamps[r * 16 + c], BLOCK_32X32 as u8, "at ({r},{c})");
    }
    assert_eq!(
        get_partition_from_stamps(&stamps, 16, 16, 0, 0, BLOCK_64X64),
        3,
    );
    for (r, c) in [(0, 0), (0, 8), (8, 0), (8, 8)] {
        assert_eq!(
            get_partition_from_stamps(&stamps, 16, 16, r, c, BLOCK_32X32),
            0,
            "at ({r},{c})"
        );
    }
}

#[test]
fn interior_edge_32x32_force_splits_to_16s() {
    let stride = 80usize;
    let mut src = vec![64u16; stride * 72];
    // Top-left 32x32: columns 0..16 = 64, 16..32 = 192 (each 16x16 flat); the
    // rest flat 128.
    for r in 0..64 {
        for c in 0..64 {
            src[r * stride + c] = if r < 32 && c < 32 {
                if c < 16 {
                    64
                } else {
                    192
                }
            } else {
                128
            };
        }
    }
    let f = VbpFrame {
        mi_rows: 16,
        mi_cols: 16,
        tile_mi_row_end: 16,
        tile_mi_col_end: 16,
        num_pixels: 64 * 64,
        sb_size: BLOCK_64X64,
        ac_quant: AC_QUANT_220,
        ss_x: 1,
        ss_y: 1,
        sf: Default::default(),
    };
    let mut stamps = vec![0u8; 16 * 16];
    choose_var_based_partitioning_key(&mut stamps, &f, &src, 0, stride, 0, 0, false);
    assert_eq!(
        get_partition_from_stamps(&stamps, 16, 16, 0, 0, BLOCK_32X32),
        3,
    );
    for (r, c) in [(0, 0), (0, 4), (4, 0), (4, 4)] {
        assert_eq!(stamps[r * 16 + c], BLOCK_16X16 as u8, "at ({r},{c})");
        assert_eq!(
            get_partition_from_stamps(&stamps, 16, 16, r as i32, c as i32, BLOCK_16X16),
            0,
        );
    }
    assert_eq!(
        get_partition_from_stamps(&stamps, 16, 16, 8, 8, BLOCK_32X32),
        0
    );
}

#[test]
fn edge_vert_single_strip_stamp() {
    let stride = 80usize;
    let src = vec![128u16; stride * 72];
    let f = VbpFrame {
        mi_rows: 12,
        mi_cols: 12,
        tile_mi_row_end: 12,
        tile_mi_col_end: 12,
        num_pixels: 48 * 48,
        sb_size: BLOCK_64X64,
        ac_quant: AC_QUANT_100,
        ss_x: 1,
        ss_y: 1,
        sf: Default::default(),
    };
    let mut stamps = vec![0u8; 12 * 12];
    choose_var_based_partitioning_key(&mut stamps, &f, &src, 0, stride, 0, 0, false);
    assert_eq!(
        get_partition_from_stamps(&stamps, 12, 12, 0, 0, BLOCK_32X32),
        0
    );
    assert_eq!(stamps[8], 7, "16x32 stamp at (0,8)");
    assert_eq!(
        get_partition_from_stamps(&stamps, 12, 12, 0, 8, BLOCK_32X32),
        2,
    );
    assert_eq!(stamps[8 * 12], 8, "32x16 stamp at (8,0)");
    assert_eq!(
        get_partition_from_stamps(&stamps, 12, 12, 8, 0, BLOCK_32X32),
        1,
    );
}

#[test]
fn superblock_outside_the_frame_is_left_alone() {
    let src = vec![128u16; 80 * 72];
    let f = VbpFrame {
        mi_rows: 16,
        mi_cols: 16,
        tile_mi_row_end: 16,
        tile_mi_col_end: 16,
        num_pixels: 64 * 64,
        sb_size: BLOCK_64X64,
        ac_quant: AC_QUANT_100,
        ss_x: 1,
        ss_y: 1,
        sf: Default::default(),
    };
    let mut stamps = vec![1u8; 16 * 16];
    choose_var_based_partitioning_key(&mut stamps, &f, &src, 0, 80, 16, 0, false);
    assert_eq!(stamps, vec![1u8; 16 * 16]);
}

#[test]
fn stamps_outside_the_frame_are_no_partition() {
    let stamps = vec![BLOCK_32X32 as u8; 16 * 16];
    assert_eq!(
        get_partition_from_stamps(&stamps, 16, 16, 16, 0, BLOCK_32X32),
        -1
    );
}

#[test]
fn averages_round_to_nearest() {
    let src: Vec<u16> = (0..16).collect();
    assert_eq!(avg_4x4(&src, 0, 4), 8);
    let mut v = VPartVar {
        sum_square_error: 0,
        sum_error: 0,
        log2_count: 0,
        variance: 0,
    };
    fill_variance(12, -3, 2, &mut v);
    assert_eq!((v.sum_square_error, v.sum_error, v.log2_count), (12, -3, 2));
}

#[test]
fn sub_blocks_count_by_their_first_sample() {
    assert!(all_blks_inside(0, 0, 9, 9));
    assert!(!all_blks_inside(0, 0, 8, 9));
    assert!(!all_blks_inside(16, 0, 24, 64));
}

#[test]
fn inter_leaves_hold_average_differences() {
    let src = vec![20u8; 16 * 16];
    let dst = vec![17u8; 16 * 16];
    let leaves = fill_variance_8x8avg(&src, 16, &dst, 16, 0, 0, 16, 16);
    for leaf in leaves.iter() {
        assert_eq!(*leaf, (9, 3));
    }
    let src16 = vec![20u16; 16 * 16];
    let dst16 = vec![23u16; 16 * 16];
    let leaves = fill_variance_8x8avg_highbd(&src16, 16, &dst16, 16, 0, 0, 8, 16);
    assert_eq!(leaves[0], (9, -3));
    assert_eq!(leaves[1], (0, 0));
}

#[test]
fn minmax_spread_of_flat_differences_is_zero() {
    let src = vec![20u8; 16 * 16];
    let mut dst = vec![17u8; 16 * 16];
    assert_eq!(compute_minmax_8x8(&src, 16, &dst, 16, 0, 0, 16, 16), 0);
    dst[0] = 11;
    // Differences in the first block range from 3 to 9, in the others from 3
    // to 3.
    assert_eq!(compute_minmax_8x8(&src, 16, &dst, 16, 0, 0, 16, 16), 6);
}

#[test]
fn distance_of_vectors_adds_both_steps() {
    assert_eq!(mv_distance((3, -4), (1, 5)), 11);
    assert_eq!(mv_distance((-30000, 0), (30000, 0)), 60000);
}

#[test]
fn thresholds_scale_with_speed() {
    assert_eq!(scale_part_thresh_content(100, 7, false, false), 100);
    assert_eq!(scale_part_thresh_content(100, 8, false, false), 125);
    assert_eq!(scale_part_thresh_content(100, 7, true, false), 150);
}

#[test]
fn zero_vector_is_forced_on_still_source() {
    assert!(is_set_force_zeromv_skip_based_on_src_sad(1, SourceSad::Zero));
    assert!(!is_set_force_zeromv_skip_based_on_src_sad(1, SourceSad::VeryLow));
    assert!(is_set_force_zeromv_skip_based_on_src_sad(2, SourceSad::VeryLow));
    assert!(is_set_force_zeromv_skip_based_on_src_sad(3, SourceSad::Low));
    assert!(!is_set_force_zeromv_skip_based_on_src_sad(0, SourceSad::Zero));
}

#[test]
fn zero_vector_skip_needs_low_differences() {
    let skip = set_force_zeromv_skip_for_sb(
        1,
        SourceSad::Zero,
        false,
        1,
        16,
        16,
        4000,
        0,
        0,
        64,
        64,
        3999,
        [0, 0],
    );
    assert!(skip.exit_partitioning);
    let skip = set_force_zeromv_skip_for_sb(
        1,
        SourceSad::Zero,
        false,
        1,
        16,
        16,
        4000,
        0,
        0,
        64,
        64,
        4000,
        [0, 0],
    );
    assert!(!skip.exit_partitioning);
    assert_eq!(calc_chroma_thresh_for_zeromv_skip(4000), 3000);
}

#[test]
fn nearest_reference_is_taken_for_partitioning() {
    let r = set_ref_frame_for_partition(0, false, 1000, 800, u32::MAX, 0);
    assert_eq!((r.ref_frame_partition, r.y_sad), (4, 800));
    let r = set_ref_frame_for_partition(0, false, 1000, 950, u32::MAX, 0);
    assert_eq!((r.ref_frame_partition, r.y_sad), (1, 1000));
}

#[test]
fn low_variance_flags_read_back() {
    let sizes = vec![Some(BLOCK_64X64); 16 * 16];
    let grid = MiGrid {
        bsize: &sizes,
        mi_stride: 16,
        mi_rows: 16,
        mi_cols: 16,
    };
    let mut low = [0u8; 105];
    let tree = VarianceTree::default();
    set_low_temp_var_flag_64x64(&grid, &mut low, BLOCK_64X64, &tree, &[10; 5], 0, 0);
    assert_eq!(
        get_force_skip_low_temp_var_small_sb(&low, 0, 0, BLOCK_64X64),
        1
    );
}

#[test]
fn chroma_limit_follows_the_luma_limit() {
    // A configured limit of 100, raised to 200, goes with 150 for chroma.
    let skip = |motion: SourceSad, level: i32, early_exit: i32, y_sad: u32, uv_sad: [u32; 2]| {
        let r = set_force_zeromv_skip_for_sb(
            level, motion, true, early_exit, 16, 16, 100, 0, 0, 16, 16, y_sad, uv_sad,
        );
        (r.exit_partitioning, r.force_zeromv_skip_for_sb)
    };
    assert_eq!(skip(SourceSad::Zero, 1, 0, 10, [200, 0]), (false, 0));
    assert_eq!(skip(SourceSad::Zero, 1, 0, 199, [149, 149]), (true, 1));
    assert_eq!(skip(SourceSad::Zero, 1, 0, 200, [149, 149]), (false, 0));
    assert_eq!(skip(SourceSad::Zero, 1, 0, 199, [149, 150]), (false, 0));
    // An eighth of it where the source moved and the early exit is at level 1.
    assert_eq!(skip(SourceSad::VeryLow, 2, 1, 10, [17, 17]), (true, 1));
    assert_eq!(skip(SourceSad::VeryLow, 2, 1, 10, [18, 0]), (false, 0));
    assert_eq!(skip(SourceSad::VeryLow, 2, 2, 10, [18, 0]), (true, 1));
    assert_eq!(skip(SourceSad::Zero, 1, 1, 10, [18, 0]), (true, 1));
    // A still superblock that does not exit.
    assert_eq!(skip(SourceSad::Zero, 1, 2, 10, [150, 0]), (false, 2));
}

#[test]
fn thresholds_of_any_size_raise_flags() {
    let cells = [Some(BLOCK_16X16); 256];
    let grid = MiGrid {
        bsize: &cells,
        mi_stride: 16,
        mi_rows: 16,
        mi_cols: 16,
    };
    let tree = VarianceTree::default();
    let far = [i64::MAX, 0, i64::MAX, i64::MIN, i64::MAX];
    let mut low = [0u8; 105];
    set_low_temp_var_flag_64x64(&grid, &mut low, BLOCK_16X16, &tree, &far, 0, 0);
    assert!(low[9..25].iter().all(|&f| f == 1));
    assert!(low[..9].iter().chain(&low[25..]).all(|&f| f == 0));
    let mut low = [7u8; 105];
    let all = [i64::MAX; 5];
    set_low_temp_var_flag_64x64(&grid, &mut low, BLOCK_64X64, &tree, &all, 0, 0);
    assert_eq!(low[0], 1);
    assert!(low[1..].iter().all(|&f| f == 7));
    // Another reference than the last frame leaves the flags alone.
    let mut low = [7u8; 105];
    set_low_temp_var_flag(&grid, &mut low, BLOCK_16X16, &tree, &all, 4, 0, 0, true);
    assert_eq!(low, [7u8; 105]);
}
