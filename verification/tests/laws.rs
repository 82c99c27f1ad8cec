//! What holds across functions, on concrete values.

use aom_encode::block::{
    BLK_H_B, BLK_W_B, BLOCK_128X128, BLOCK_16X16, BLOCK_32X32, BLOCK_64X64, MI_SIZE_HIGH_B,
    MI_SIZE_WIDE_B,
};
use aom_encode::pred_mode::{compound_ref0_mode, compound_ref1_mode, PredMode};
use aom_encode::rd::rdcost;
use aom_encode::rdopt_skip::{find_top_ref, in_single_ref_cutoff};
use aom_encode::rdopt_sse::prune_zero_mv_with_sse;
use aom_encode::rdopt_var_rd::ref_frame_flag;
use aom_encode::resize::{highbd_resize_plane, resize_plane};
use aom_encode::resize_filters::{smooth_tap, tap};
use aom_encode::temporal_filter::{
    tf_apply_temporal_filter_self, tf_normalize_filtered_frame, TfPlane, TfPlaneMut, TfSample,
};
use aom_encode::tx_search::{get_tx_mask_uv_intra, TxMaskParams, TXS_H, TXS_W};
use aom_encode::var_part::{
    choose_var_based_partitioning_key, get_force_skip_low_temp_var, set_low_temp_var_flag, MiGrid,
    VarianceTree, VbpFrame,
};
use aom_encode::var_tx::{get_tx_mask_inter_uv, VarTxEnv};
use aom_encode::var_tx_tree::{
    select_tx_size_and_type, LeafEvent, VarTxStep, TX_SIZE_HIGH_UNIT, TX_SIZE_WIDE_UNIT,
};

#[test]
fn tables_of_sizes_agree() {
    for b in 0..22 {
        assert_eq!(BLK_W_B[b], 4 * MI_SIZE_WIDE_B[b]);
        assert_eq!(BLK_H_B[b], 4 * MI_SIZE_HIGH_B[b]);
    }
    for t in 0..19 {
        assert_eq!(TXS_W[t], 4 * TX_SIZE_WIDE_UNIT[t]);
        assert_eq!(TXS_H[t], 4 * TX_SIZE_HIGH_UNIT[t]);
    }
}

#[test]
fn costs_grow_with_rate_and_distortion() {
    assert!(rdcost(300, 40, 7) <= rdcost(300, 41, 7));
    assert!(rdcost(300, 40, 7) <= rdcost(300, 40, 8));
    assert!(rdcost(300, 40, 0) <= rdcost(300, 40, 7));
}

#[test]
fn halves_of_compound_modes_are_single() {
    for mode in [
        PredMode::NearestNearestMv,
        PredMode::NearNewMv,
        PredMode::NewNearestMv,
        PredMode::GlobalGlobalMv,
    ] {
        assert!(compound_ref0_mode(mode).unwrap().is_inter_singleref());
        assert!(compound_ref1_mode(mode).unwrap().is_inter_singleref());
    }
}

#[test]
fn taps_of_every_phase_add_up() {
    for bank in 0..5u8 {
        for phase in 0..64 {
            let sum: i32 = (0..8).map(|k| i32::from(tap(bank, phase, k))).sum();
            assert_eq!(sum, 128, "bank {bank} phase {phase}");
        }
    }
    for phase in 0..16 {
        let sum: i32 = (0..8).map(|k| i32::from(smooth_tap(phase, k))).sum();
        assert_eq!(sum, 128, "phase {phase}");
    }
}

#[test]
fn depths_resize_alike() {
    let low: Vec<u8> = (0..20 * 12).map(|i| (i * 37 % 256) as u8).collect();
    let high: Vec<u16> = low.iter().map(|&v| u16::from(v)).collect();
    for (h2, w2) in [(12, 20), (6, 10), (7, 11), (5, 20), (20, 33)] {
        let mut a = vec![0u8; (h2 * w2) as usize];
        let mut b = vec![0u16; (h2 * w2) as usize];
        resize_plane(&low, 12, 20, 20, &mut a, h2, w2, w2);
        highbd_resize_plane(&high, 12, 20, 20, &mut b, h2, w2, w2, 8);
        assert!(a.iter().zip(b.iter()).all(|(&x, &y)| u16::from(x) == y));
    }
}

#[test]
fn quotients_stay_between_the_blended_samples() {
    // 600 times 10 and 400 times 13, over 1000.
    let accum = vec![600 * 10 + 400 * 13u32; 16];
    let count = vec![1000u16; 16];
    let mut out = vec![0u16; 16];
    let mut planes = [TfPlaneMut {
        data: &mut out,
        stride: 4,
    }];
    tf_normalize_filtered_frame(&mut planes, 4, 4, 0, 0, &[0; 3], &[0; 3], &accum, &count);
    assert_eq!(out, vec![11; 16]);
}

/// Blend the block in row 1 and column 2 of three planes into empty sums, and
/// normalize it into planes of other strides that hold `fill`.
fn blend_and_normalize<P: TfSample + PartialEq + std::fmt::Debug>(
    luma: Vec<P>,
    chroma: [Vec<P>; 2],
    fill: P,
) {
    let frames = [&luma, &chroma[0], &chroma[1]];
    let strides = [24usize, 14, 13];
    let planes: Vec<TfPlane<'_, P>> = (0..3)
        .map(|p| TfPlane {
            data: frames[p],
            stride: strides[p],
            crop_width: 20,
            crop_height: 16,
        })
        .collect();
    let (ss_x, ss_y) = ([0, 1, 1], [0, 1, 1]);
    let mut accum = vec![0u32; 100];
    let mut count = vec![0u16; 100];
    tf_apply_temporal_filter_self(&planes, 6, 8, 1, 2, &ss_x, &ss_y, &mut accum, &mut count);
    let out_strides = [18usize, 9, 20];
    let mut out: Vec<Vec<P>> = out_strides.iter().map(|&s| vec![fill; s * 20]).collect();
    let mut result: Vec<TfPlaneMut<'_, P>> = out
        .iter_mut()
        .zip(out_strides)
        .map(|(data, stride)| TfPlaneMut { data, stride })
        .collect();
    tf_normalize_filtered_frame(&mut result, 6, 8, 1, 2, &ss_x, &ss_y, &accum, &count);
    for p in 0..3 {
        let (w, h) = if p == 0 { (6, 8) } else { (3, 4) };
        for k in 0..out[p].len() {
            let (row, col) = (k / out_strides[p], k % out_strides[p]);
            let inside = (h..2 * h).contains(&row) && (2 * w..3 * w).contains(&col);
            let want = if inside { frames[p][row * strides[p] + col] } else { fill };
            assert_eq!(out[p][k], want);
        }
    }
}

#[test]
fn block_comes_back_from_its_own_blend() {
    let eight = |n: usize, by: usize| (0..n).map(|i| (by * i + 250) as u8).collect();
    blend_and_normalize::<u8>(eight(480, 7), [eight(240, 3), eight(240, 5)], 77);
    let sixteen = |n: usize, by: usize| (0..n).map(|i| (by * i + 0xfff0) as u16).collect();
    blend_and_normalize::<u16>(sixteen(480, 7), [sixteen(240, 331), sixteen(240, 5)], 777);
}

#[test]
fn partitions_write_8x8_to_32x32_inside_their_superblock() {
    let stride = 160usize;
    let src: Vec<u16> = (0..stride * 144).map(|i| (i * 7919 % 251) as u16).collect();
    let f = VbpFrame {
        mi_rows: 32,
        mi_cols: 32,
        tile_mi_row_end: 32,
        tile_mi_col_end: 32,
        num_pixels: 128 * 128,
        sb_size: BLOCK_64X64,
        ac_quant: 40,
        ss_x: 1,
        ss_y: 1,
        sf: Default::default(),
    };
    let mut stamps = vec![200u8; 32 * 32];
    choose_var_based_partitioning_key(&mut stamps, &f, &src, 0, stride, 16, 16, false);
    for r in 0..32 {
        for c in 0..32 {
            let v = stamps[r * 32 + c];
            if r < 16 || c < 16 {
                assert_eq!(v, 200);
            } else {
                assert!(v == 200 || (3..=9).contains(&v));
            }
        }
    }
    assert_ne!(stamps[16 * 32 + 16], 200);
}

#[test]
fn low_variance_flags_of_a_large_superblock_read_back() {
    let mut sizes = vec![None; 32 * 32];
    // The first 64x64 block is whole, the second divided into 32x32 blocks,
    // the third into 16x16 blocks.
    sizes[0] = Some(BLOCK_64X64);
    sizes[16] = Some(BLOCK_32X32);
    sizes[16 + 8] = Some(BLOCK_32X32);
    sizes[16 * 32] = Some(BLOCK_16X16);
    let grid = MiGrid {
        bsize: &sizes,
        mi_stride: 32,
        mi_rows: 32,
        mi_cols: 32,
    };
    let mut tree = VarianceTree::default();
    // The second 32x32 block of the second 64x64 block is not flat.
    tree.l2[4 + 1] = 1 << 20;
    // Nor is the third 16x16 block of the third one's first 32x32 block.
    tree.l3[2 * 16 + 2] = 1 << 20;
    let mut low = [0u8; 105];
    set_low_temp_var_flag(&grid, &mut low, BLOCK_32X32, &tree, &[1000; 5], 1, 0, 0, false);
    assert_eq!(get_force_skip_low_temp_var(&low, 0, 0, BLOCK_64X64), 1);
    assert_eq!(get_force_skip_low_temp_var(&low, 0, 16, BLOCK_32X32), 1);
    assert_eq!(get_force_skip_low_temp_var(&low, 0, 24, BLOCK_32X32), 0);
    assert_eq!(get_force_skip_low_temp_var(&low, 16, 0, BLOCK_16X16), 1);
    assert_eq!(get_force_skip_low_temp_var(&low, 20, 0, BLOCK_16X16), 0);
    assert_eq!(get_force_skip_low_temp_var(&low, 0, 0, BLOCK_128X128), 0);
    // Other references raise nothing.
    let mut none = [0u8; 105];
    set_low_temp_var_flag(&grid, &mut none, BLOCK_32X32, &tree, &[1000; 5], 4, 0, 0, false);
    assert_eq!(none, [0u8; 105]);
}

#[test]
fn chroma_has_one_type_to_try() {
    let p = TxMaskParams::speed0_allintra();
    for tx in 0..19 {
        for uv_mode in 0..=13 {
            let (mask, t) = get_tx_mask_uv_intra(tx, uv_mode, 0, false, 0, false, false, &p);
            assert_eq!(mask, 1 << t);
        }
        for uv_type in 0..16 {
            let (mask, t) = get_tx_mask_inter_uv(tx, uv_type, false, false, true, false);
            assert_eq!(mask, 1 << t);
        }
    }
}

#[test]
fn settled_trees_ignore_further_answers() {
    let costs = [[30i32, 40]; 21];
    let ctx = [0i8; 4];
    let dims = [8u8; 4];
    let env = VarTxEnv {
        bsize: 3,
        max_blocks_wide: 2,
        max_blocks_high: 2,
        lossless: false,
        bd: 8,
        rdmult: 512,
        txfm_partition_cost: &costs,
        skip_txfm_cost: [10, 20],
        above_ctx: &ctx,
        left_ctx: &ctx,
        tx_above: &dims,
        tx_left: &dims,
        adaptive_txb_search_level: 0,
        txb_split_cap: false,
        ml_tx_split_thresh: -1,
        init_depth: 2,
    };
    // At the deepest level one answer decides.
    let event = |rate: i32| LeafEvent {
        leaf: None,
        zero_blk_rate: rate,
        split_score: 0,
    };
    let one = select_tx_size_and_type(&env, &[event(5)], i64::MAX);
    let two = select_tx_size_and_type(&env, &[event(5), event(9)], i64::MAX);
    assert!(matches!(one, VarTxStep::Done(rd, r) if rd == i64::MAX && !r.valid));
    assert!(matches!(two, VarTxStep::Done(rd, r) if rd == i64::MAX && !r.valid));
}

#[test]
fn best_reference_is_within_its_limit() {
    for best in [0i64, 1, 9, 1000] {
        let mut rd = [i64::MAX, 5000, best, 5000, 5000, 5000, 5000, 5000];
        find_top_ref(&mut rd);
        assert!(in_single_ref_cutoff(&rd, 2, 1));
    }
}

#[test]
fn references_have_bits_of_their_own() {
    for a in 1..8 {
        for b in 1..a {
            assert_eq!(ref_frame_flag(a) & ref_frame_flag(b), 0);
        }
    }
}

#[test]
fn higher_levels_prune_more_zero_vectors() {
    let best = [100u32; 8];
    for sse in [99u32, 100, 101, 125, 126, 500] {
        if prune_zero_mv_with_sse([1, -1], &[0; 8], &best, &[sse], 1) {
            assert!(prune_zero_mv_with_sse([1, -1], &[0; 8], &best, &[sse], 2));
        }
    }
}
