//! The temporal dependency model.

use core::cmp::Ordering;

use aom_encode::ref_gop::{FrameType, FrameUpdateType};
use aom_encode::tpl_costs::TplRdmultSbParams;
use aom_encode::tpl_gop::{
    coded_to_superres_mi, compare_sad, get_gop_length, get_msb, gop_length_verdict, is_alike_mv,
    pixels_to_mi, rate_estimator, scan_q_index, skip_tpl_for_frame, GopLengthVerdict,
};
use aom_encode::tpl_model::{
    delta_rate_cost, get_fullmv_from_mv, get_overlap_area, rdcost_i64_rate, round_floor,
    tpl_block_dims, tpl_ptr_pos, Mv, TplDepFrame, TplDepStats, TplParams, MAX_TPL_FRAME_IDX,
};

fn mv(row: i16, col: i16) -> Mv {
    Mv { row, col }
}

#[test]
fn overlap_of_two_blocks() {
    assert_eq!(get_overlap_area(0, 0, 4, 6, 16, 16), 12 * 10);
    assert_eq!(get_overlap_area(0, 0, 16, 0, 16, 16), 0);
    assert_eq!(get_overlap_area(-3, 0, -3, 0, 8, 4), 32);
}

#[test]
fn overlaps_with_a_grid_add_up_to_the_block() {
    for (row, col) in [(5, 9), (-7, 3), (16, 16), (-16, -1)] {
        let base_row = round_floor(row, 16) * 16;
        let base_col = round_floor(col, 16) * 16;
        let total: i32 = (0..4)
            .map(|b| {
                get_overlap_area(base_row + 16 * (b >> 1), base_col + 16 * (b & 1), row, col, 16, 16)
            })
            .sum();
        assert_eq!(total, 256);
    }
}

#[test]
fn positions_on_the_grid() {
    assert_eq!(tpl_ptr_pos(9, 14, 10, 2), 2 * 10 + 3);
    assert_eq!(round_floor(-1, 16), -1);
    assert_eq!(round_floor(-16, 16), -1);
    assert_eq!(round_floor(-17, 16), -2);
    assert_eq!(round_floor(31, 16), 1);
    assert_eq!(tpl_block_dims(2), (16, 16, 4, 4));
    assert_eq!(tpl_block_dims(3), (32, 32, 8, 8));
    assert_eq!(tpl_block_dims(5), (16, 16, 4, 4));
    assert_eq!(pixels_to_mi(17), 6);
    assert_eq!(coded_to_superres_mi(10, 16), 20);
    assert_eq!(coded_to_superres_mi(3, 9), 3);
    assert_eq!(coded_to_superres_mi(-10, 16), -19);
    assert_eq!(coded_to_superres_mi(-1, 9), 0);
    assert_eq!(coded_to_superres_mi(-3, 9), -2);
}

#[test]
fn vectors_in_whole_samples() {
    assert_eq!(get_fullmv_from_mv(mv(12, -12)), (2, -2));
    assert_eq!(get_fullmv_from_mv(mv(3, -3)), (0, 0));
    assert_eq!(get_fullmv_from_mv(mv(4, -4)), (1, -1));
    assert_eq!(get_fullmv_from_mv(mv(-5, 8)), (-1, 1));
}

#[test]
fn rate_passes_unchanged_on_small_distortion() {
    let model = |_: i64, _: i64, _: i64, _: i32| -7i64;
    assert_eq!(delta_rate_cost(1234, 500, 128, 256, &model), 1234);
    // The model's bits are brought back to the scale of rates.
    assert_eq!(delta_rate_cost(1234, 500, 129, 256, &model), -7 << 13);
}

#[test]
fn wide_cost() {
    assert_eq!(rdcost_i64_rate(512, 9, 3), 9 + 3 * 128);
    assert_eq!(rdcost_i64_rate(100, 7, 0), (700 + 256) >> 9);
}

#[test]
fn stored_statistics_are_positive() {
    let mut grid = vec![TplDepStats::default(); 4];
    let src = TplDepStats {
        intra_cost: -5,
        srcrf_dist: 40,
        mc_dep_dist: -3,
        ..Default::default()
    };
    TplParams::tpl_model_store(&mut grid, 4, 4, 2, &src, 2);
    let cell = &grid[3];
    assert_eq!((cell.intra_cost, cell.inter_cost, cell.srcrf_dist), (1, 1, 40));
    assert_eq!((cell.recrf_dist, cell.srcrf_rate, cell.mc_dep_dist), (1, 1, -3));
    assert_eq!(grid[0], TplDepStats::default());
}

fn frame(cells: usize, stride: i32, mi: i32) -> TplDepFrame {
    TplDepFrame {
        is_valid: true,
        stats: vec![TplDepStats::default(); cells],
        stride,
        mi_rows: mi,
        mi_cols: mi,
        base_rdmult: 512,
        ..Default::default()
    }
}

fn group() -> TplParams {
    let mut p = TplParams {
        frames: vec![frame(4, 2, 8), frame(4, 2, 8)],
        ..Default::default()
    };
    p.set_tpl_stats_block_size();
    p
}

/// The share of dependent distortion that was lost, rounded toward zero.
fn share(dep: i64, own: i64, src: i64) -> i64 {
    dep * (own - src) / own
}

#[test]
fn credit_is_spread_over_the_reference() {
    let mut p = group();
    let s = &mut p.frames[1].stats[0];
    s.ref_frame_index = [0, -1];
    s.mv[0] = mv(64, 32);
    s.recrf_dist = 1000;
    s.srcrf_dist = 100;
    s.recrf_rate = 50;
    s.srcrf_rate = 10;
    p.frames[1].ref_map_index[0] = 0;
    let model = |_: i64, _: i64, _: i64, _: i32| 0i64;
    p.tpl_model_update_b(0, 0, 2, 1, 0, &share, &model);
    // The block lands at row 8, column 4: parts of 8 * 12, 8 * 4, 8 * 12 and
    // 8 * 4 samples of 256.
    let dist: Vec<i64> = p.frames[0].stats.iter().map(|c| c.mc_dep_dist).collect();
    assert_eq!(dist, vec![900 * 96 / 256, 900 * 32 / 256, 900 * 96 / 256, 900 * 32 / 256]);
    let rate: Vec<i64> = p.frames[0].stats.iter().map(|c| c.mc_dep_rate).collect();
    assert_eq!(rate, vec![640 * 96 / 256, 640 * 32 / 256, 640 * 96 / 256, 640 * 32 / 256]);
    assert!(p.frames[1].stats.iter().all(|c| c.mc_dep_dist == 0));
}

#[test]
fn blocks_without_a_reference_give_no_credit() {
    let mut p = group();
    p.frames[1].stats[0].ref_frame_index = [-1, -1];
    p.frames[1].stats[0].recrf_dist = 1000;
    let model = |_: i64, _: i64, _: i64, _: i32| 0i64;
    p.tpl_model_update(0, 0, 1, &share, &model);
    assert!(p.frames[0].stats.iter().all(|c| *c == TplDepStats::default()));
    // The first frame of a group has no references.
    p.mc_flow_synthesizer(0, 8, 8, &share, &model);
    assert!(p.frames[1].stats.iter().skip(1).all(|c| c.mc_dep_dist == 0));
}

#[test]
fn whole_frames_are_synthesized() {
    let mut p = group();
    for s in p.frames[1].stats.iter_mut() {
        s.ref_frame_index = [0, -1];
        s.recrf_dist = 300;
        s.srcrf_dist = 200;
    }
    let model = |_: i64, _: i64, _: i64, _: i32| 0i64;
    p.mc_flow_synthesizer(1, 8, 8, &share, &model);
    assert!(p.frames[0].stats.iter().all(|c| c.mc_dep_dist == 100));
}

#[test]
fn readiness_of_statistics() {
    let mut p = group();
    assert!(!p.tpl_stats_ready(0));
    p.ready = true;
    assert!(p.tpl_stats_ready(1));
    assert!(!p.tpl_stats_ready(2));
    assert!(!p.tpl_stats_ready(MAX_TPL_FRAME_IDX));
    p.frames[0].stats[1].mc_dep_dist = 9;
    p.init_tpl_stats();
    assert!(!p.ready && !p.frames[1].is_valid);
    assert_eq!(p.frames[0].stats[1], TplDepStats::default());
    assert_eq!((p.tpl_stats_block_mis_log2, p.tpl_bsize_1d), (2, 16));
}

#[test]
fn vectors_are_told_from_their_neighbours() {
    let mut f = frame(4, 2, 8);
    f.stats[0].mv[0] = mv(10, 0);
    f.stats[1].mv[0] = mv(12, 1);
    f.stats[2].mv[0] = mv(0, 0);
    f.stats[3].mv[0] = mv(12, 3);
    assert_eq!(TplParams::compute_mv_difference(&f, 0, 0, 4, 2, 2), mv(10, 0));
    assert_eq!(TplParams::compute_mv_difference(&f, 0, 4, 4, 2, 2), mv(2, 1));
    // Above is nearer than the left.
    assert_eq!(TplParams::compute_mv_difference(&f, 4, 4, 4, 2, 2), mv(0, 2));
    let h = TplParams::frame_mv_histogram(&f, 2).unwrap();
    assert_eq!(h.n, 4);
    assert_eq!((h.count_row[10], h.count_row[2], h.count_row[0]), (1, 1, 2));
    assert_eq!(h.count_row, h.count_col);
    f.is_valid = false;
    assert!(TplParams::frame_mv_histogram(&f, 2).is_none());
}

#[test]
fn rate_of_coefficients() {
    let scan: Vec<u16> = vec![0, 2, 1, 3];
    assert_eq!(rate_estimator(&[0, 0, 0, 0], 0, &scan), 1 << 9);
    // Levels 3 and 0: two bits and a sign on top of one, and one.
    assert_eq!(rate_estimator(&[-3, 0, 0, 0], 2, &scan), (1 + 4 + 1) << 9);
    assert_eq!(get_msb(1), 0);
    assert_eq!(get_msb(0x8000_0000), 31);
}

#[test]
fn verdicts_on_the_length_of_a_group() {
    assert_eq!(get_gop_length(16), 16);
    assert_eq!(get_gop_length(500), MAX_TPL_FRAME_IDX - 1);
    assert_eq!(gop_length_verdict(1, true, false), GopLengthVerdict::Keep);
    assert_eq!(gop_length_verdict(1, false, false), GopLengthVerdict::Shorten);
    assert_eq!(gop_length_verdict(2, false, true), GopLengthVerdict::Shorten);
    assert_eq!(gop_length_verdict(2, false, false), GopLengthVerdict::Redo);
    assert_eq!(gop_length_verdict(3, true, false), GopLengthVerdict::Keep);
    assert_eq!(gop_length_verdict(7, true, false), GopLengthVerdict::Redo);
    assert_eq!(GopLengthVerdict::Redo.as_c_int(), 2);
}

#[test]
fn frames_that_need_no_model() {
    let skip = |ty, idx, depth, eval, approx, reduce| {
        skip_tpl_for_frame(16, idx, ty, depth, eval, approx, reduce)
    };
    assert!(skip(FrameUpdateType::Overlay, 1, 1, 0, false, false));
    assert!(!skip(FrameUpdateType::Arf, 1, 1, 0, true, false));
    assert!(skip(FrameUpdateType::Arf, 1, 3, 0, true, false));
    assert!(!skip(FrameUpdateType::Arf, 1, 3, 2, true, false));
    assert!(skip(FrameUpdateType::Arf, 16, 1, 0, true, false));
    assert!(skip(FrameUpdateType::Lf, 15, 1, 0, false, true));
    assert!(!skip(FrameUpdateType::Lf, 16, 1, 0, false, true));
}

#[test]
fn alike_vectors() {
    let centers = [mv(100, 100)];
    assert!(is_alike_mv(mv(100, 100), &centers, 0));
    assert!(!is_alike_mv(mv(101, 100), &centers, 0));
    assert!(is_alike_mv(mv(163, 37), &centers, 1));
    assert!(!is_alike_mv(mv(164, 100), &centers, 1));
    assert!(is_alike_mv(mv(227, 100), &centers, 2));
    assert!(!is_alike_mv(mv(0, 0), &[], 2));
    assert_eq!(compare_sad(1, 2), Ordering::Less);
    assert_eq!(compare_sad(2, 2), Ordering::Equal);
}

#[test]
fn quantizer_scan_stops_at_the_first_hit() {
    let mut meets = [false; 256];
    meets[40] = true;
    meets[90] = true;
    assert_eq!(scan_q_index(60, true, &meets), 40);
    assert_eq!(scan_q_index(60, false, &meets), 90);
    assert_eq!(scan_q_index(30, true, &meets), 0);
    assert_eq!(scan_q_index(100, false, &meets), 255);
}

#[test]
fn costs_of_cells() {
    let mut p = group();
    let s = &mut p.frames[1].stats[3];
    s.srcrf_dist = 11;
    s.recrf_dist = 5;
    s.mc_dep_dist = 2;
    s.mc_dep_rate = 7;
    let cells = p.importance_cells(1);
    assert_eq!((cells.len(), cells[1].len()), (2, 2));
    let cell = &cells[1][1];
    assert_eq!((cell.weight, cell.own, cell.dependent), (11, 5 * 128, 7 + 2 * 128));

    assert_eq!(p.rdmult_grid(1, 32, 8), Some((2, 2)));
    assert_eq!(p.rdmult_grid(2, 32, 8), None);
    let block = p.rdmult_block(1, 1, 1, 8, 8);
    assert_eq!((block.len(), block[0].len()), (1, 1));
    assert_eq!(block[0][0].own, 640);
    p.frames[1].is_valid = false;
    assert_eq!(p.rdmult_grid(1, 32, 8), None);
}

#[test]
fn window_of_a_superblock() {
    let p = group();
    let params = TplRdmultSbParams {
        gf_frame_index: 1,
        update_type: FrameUpdateType::Arf,
        layer_depth: 9,
        gfu_boost: 2000,
        frame_type: FrameType::Inter,
        aq_mode: 0,
        superres_scale_denominator: 8,
        superres_upscaled_width: 64,
        mi_rows: 16,
        base_qindex: 100,
        y_dc_delta_q: 3,
        rdmult_delta_qindex: 20,
        bit_depth: 8,
        use_fixed_qp_offsets: false,
        is_stat_consumption_stage: false,
        tuning: 0,
        mode: 0,
        sb_mi_width: 16,
        sb_mi_height: 8,
    };
    let w = p.rdmult_sb_window(params, 8, 8).unwrap();
    assert_eq!(w.indices, vec![10, 11, 14, 15]);
    assert_eq!((w.boost_index, w.layer_depth), (15, 6));
    assert_eq!((w.orig_qindex, w.new_qindex), (103, 123));
    let leaf = TplRdmultSbParams {
        update_type: FrameUpdateType::Lf,
        ..params
    };
    assert!(p.rdmult_sb_window(leaf, 8, 8).is_none());
    let adaptive = TplRdmultSbParams {
        aq_mode: 1,
        ..params
    };
    assert!(p.rdmult_sb_window(adaptive, 8, 8).is_none());
    let absent = TplRdmultSbParams {
        gf_frame_index: 2,
        ..params
    };
    assert!(p.rdmult_sb_window(absent, 8, 8).is_none());
}
