//! The settings of each speed.

use aom_encode::speed_features::{
    SpeedFeatures, CDEF_FAST_SEARCH_LVL1, CDEF_FULL_SEARCH, DEFAULT_EVAL, MODE_EVAL,
    TOP_INTRA_MODEL_COUNT, TX_TYPE_PRUNE_1, TX_TYPE_PRUNE_2, WINNER_MODE_EVAL,
};
use aom_encode::tx_search::TxTypeSearchPolicy;

#[test]
fn speed0_allintra_matches_hardcoded() {
    let sf = SpeedFeatures::set_allintra(0, false, false);

    let got = sf.tx_type_search_policy(false, 0);
    let want = TxTypeSearchPolicy::speed0_allintra();
    assert_eq!(got.skip_trellis, want.skip_trellis);
    assert_eq!(got.coeff_opt_dist_threshold, want.coeff_opt_dist_threshold);
    assert_eq!(got.coeff_opt_satd_threshold, want.coeff_opt_satd_threshold);
    assert_eq!(
        got.use_transform_domain_distortion,
        want.use_transform_domain_distortion
    );
    assert_eq!(got.tx_domain_dist_threshold, want.tx_domain_dist_threshold);
    assert_eq!(
        got.adaptive_txb_search_level,
        want.adaptive_txb_search_level
    );
    assert_eq!(got.skip_tx_search, want.skip_tx_search);
    assert_eq!(got.sharpness, want.sharpness);
    assert_eq!(
        got.use_chroma_trellis_rd_mult,
        want.use_chroma_trellis_rd_mult
    );

    assert_eq!(sf.less_rectangular_check_level, 1);
    assert_eq!(sf.intra_pruning_with_hog, 1);
    assert!(sf.use_chroma_trellis_rd_mult);
    assert_eq!(sf.perform_coeff_opt, 1);
    assert_eq!(sf.adaptive_txb_search_level, 1);
    assert_eq!(sf.intra_cnn_based_part_prune_level, 0);
    assert_eq!(sf.reuse_best_prediction_for_part_ab, 0);
    assert_eq!(sf.top_intra_model_count_allowed, TOP_INTRA_MODEL_COUNT);
    assert_eq!(sf.model_based_prune_tx_search_level, 1);
    assert_eq!(sf.prune_2d_txfm_mode, TX_TYPE_PRUNE_1);
    assert!(!sf.skip_tx_search);
    assert_eq!(sf.tx_domain_dist_level, 0);
    assert_eq!(sf.tx_domain_dist_thres_level, 0);
    assert_eq!(sf.intra_tx_size_search_init_depth_rect, 0);
    assert_eq!(sf.tx_ml_tx_split_thresh, 8500);
    assert_eq!(sf.cdef_pick_method, CDEF_FULL_SEARCH);
    assert!(!sf.disable_smooth_intra);
    assert_eq!(sf.prune_filter_intra_level, 0);
    assert_eq!(sf.intra_pruning_with_hog, 1);
    assert_eq!(sf.ml_4_partition_search_level_index, 0);
}

#[test]
fn speed2_allintra_deltas_match_source() {
    let sf = SpeedFeatures::set_allintra(2, false, false);
    assert!(sf.disable_smooth_intra);
    assert_eq!(sf.intra_pruning_with_hog, 2);
    assert_eq!(sf.prune_filter_intra_level, 1);
    assert_eq!(sf.perform_coeff_opt, 3);
    assert_eq!(sf.ml_4_partition_search_level_index, 2);
    assert_eq!(sf.adaptive_txb_search_level, 2);
    assert_eq!(sf.top_intra_model_count_allowed, 3);
    assert_eq!(sf.intra_tx_size_search_init_depth_rect, 1);
    assert!(sf.skip_tx_search);
    assert_eq!(sf.less_rectangular_check_level, 1);
    let pol = sf.tx_type_search_policy(false, 0);
    assert_eq!(pol.coeff_opt_dist_threshold, 864);
    assert_eq!(pol.coeff_opt_satd_threshold, u32::MAX);
}

#[test]
fn speed3_allintra_deltas_match_source() {
    let sf = SpeedFeatures::set_allintra(3, false, false);
    assert_eq!(sf.less_rectangular_check_level, 2);
    assert_eq!(sf.chroma_intra_pruning_with_hog, 2);
    assert_eq!(sf.intra_pruning_with_hog, 3);
    assert_eq!(sf.prune_palette_search_level, 2);
    assert_eq!(sf.ml_4_partition_search_level_index, 3);
    assert!(sf.disable_smooth_intra);
    assert_eq!(sf.prune_filter_intra_level, 1);
    assert_eq!(sf.perform_coeff_opt, 3);
    assert_eq!(sf.adaptive_txb_search_level, 2);
    assert_eq!(sf.top_intra_model_count_allowed, 3);
    assert!(sf.skip_tx_search);
    assert!(sf.use_rd_based_breakout_for_intra_tx_search);
    let pol = sf.tx_type_search_policy(false, 0);
    assert_eq!(pol.coeff_opt_dist_threshold, 864);
    assert_eq!(pol.coeff_opt_satd_threshold, u32::MAX);
}

#[test]
fn speed4_allintra_deltas_match_source() {
    let sf = SpeedFeatures::set_allintra(4, false, false);
    assert!(sf.prune_chroma_modes_using_luma_winner);
    assert_eq!(sf.chroma_intra_pruning_with_hog, 0);
    assert_eq!(sf.intra_pruning_with_hog, 3);
    assert_eq!(sf.less_rectangular_check_level, 2);
    assert!(sf.disable_smooth_intra);
    assert_eq!(sf.prune_filter_intra_level, 1);
    assert_eq!(sf.perform_coeff_opt, 5);
    assert_eq!(sf.tx_domain_dist_thres_level, 3);
    assert_eq!(sf.winner_mode_tx_type_pruning, 2);
    assert_eq!(sf.fast_intra_tx_type_search, 2);
    assert_eq!(sf.prune_2d_txfm_mode, 3);
    assert!(sf.prune_tx_type_est_rd);
    assert!(sf.enable_winner_mode_for_coeff_opt);
    assert!(sf.enable_winner_mode_for_use_tx_domain_dist);
    assert_eq!(sf.multi_winner_mode_type, 2);
    assert!(sf.enable_winner_mode_for_tx_size_srch);
    assert_eq!(sf.winner_mode_count_allowed(), 3);
    assert!(sf.use_rd_based_breakout_for_intra_tx_search);
    assert_eq!(sf.top_intra_model_count_allowed, 3);
    let pol = sf.tx_type_search_policy(false, 0);
    assert_eq!(pol.coeff_opt_dist_threshold, 864);
    assert_eq!(pol.coeff_opt_satd_threshold, 97);
    assert_eq!(pol.use_transform_domain_distortion, 1);
    assert_eq!(pol.tx_domain_dist_threshold, 0);
    let me = sf.tx_type_search_policy_for_stage(MODE_EVAL, false, 0);
    assert_eq!(
        (me.coeff_opt_dist_threshold, me.coeff_opt_satd_threshold),
        (142, 16)
    );
    assert!(me.use_default_intra_tx_type);
    assert_eq!(me.prune_2d_txfm_mode, 4);
    let win = sf.tx_type_search_policy_for_stage(WINNER_MODE_EVAL, false, 0);
    assert_eq!(
        (win.coeff_opt_dist_threshold, win.coeff_opt_satd_threshold),
        (u32::MAX, u32::MAX)
    );
    assert!(!win.use_default_intra_tx_type);
    assert_eq!(win.prune_2d_txfm_mode, 0);
    assert!(win.prune_tx_type_est_rd);
    assert_eq!(sf.tx_size_search_method_for_stage(MODE_EVAL), 2);
    assert_eq!(sf.tx_size_search_method_for_stage(WINNER_MODE_EVAL), 0);
}

#[test]
fn speed5_allintra_deltas_match_source() {
    let sf = SpeedFeatures::set_allintra(5, false, false);
    assert_eq!(sf.multi_winner_mode_type, 1);
    assert_eq!(sf.winner_mode_count_allowed(), 2);
    assert_eq!(sf.chroma_intra_pruning_with_hog, 0);
    assert!(sf.prune_chroma_modes_using_luma_winner);
    assert_eq!(sf.intra_cnn_based_part_prune_level, 2);
    let screen = SpeedFeatures::set_allintra(5, true, false);
    assert_eq!(screen.intra_cnn_based_part_prune_level, 1);
    assert_eq!(sf.top_intra_model_count_allowed, 3);
    assert_eq!(sf.prune_filter_intra_level, 1);
    assert_eq!(sf.intra_pruning_with_hog, 3);
    assert_eq!(sf.less_rectangular_check_level, 2);
    assert!(sf.disable_smooth_intra);
    assert_eq!(sf.perform_coeff_opt, 5);
    assert_eq!(sf.tx_domain_dist_thres_level, 3);
    assert_eq!(sf.winner_mode_tx_type_pruning, 2);
    assert_eq!(sf.fast_intra_tx_type_search, 2);
    assert_eq!(sf.prune_2d_txfm_mode, 3);
    assert!(sf.prune_tx_type_est_rd);
    assert!(sf.enable_winner_mode_for_coeff_opt);
    assert!(sf.enable_winner_mode_for_use_tx_domain_dist);
    assert!(sf.enable_winner_mode_for_tx_size_srch);
    assert!(sf.use_rd_based_breakout_for_intra_tx_search);
    assert_eq!(sf.ml_4_partition_search_level_index, 3);
    let sf4 = SpeedFeatures::set_allintra(4, false, false);
    for stage in [DEFAULT_EVAL, MODE_EVAL, WINNER_MODE_EVAL] {
        let p5 = sf.tx_type_search_policy_for_stage(stage, false, 0);
        let p4 = sf4.tx_type_search_policy_for_stage(stage, false, 0);
        assert_eq!(p5.coeff_opt_dist_threshold, p4.coeff_opt_dist_threshold);
        assert_eq!(p5.coeff_opt_satd_threshold, p4.coeff_opt_satd_threshold);
        assert_eq!(
            p5.use_transform_domain_distortion,
            p4.use_transform_domain_distortion
        );
        assert_eq!(p5.tx_domain_dist_threshold, p4.tx_domain_dist_threshold);
        assert_eq!(p5.prune_2d_txfm_mode, p4.prune_2d_txfm_mode);
        assert_eq!(p5.use_default_intra_tx_type, p4.use_default_intra_tx_type);
        assert_eq!(
            sf.tx_size_search_method_for_stage(stage),
            sf4.tx_size_search_method_for_stage(stage)
        );
    }
    assert_eq!(sf4.winner_mode_count_allowed(), 3);
}

#[test]
fn speed6_allintra_deltas_match_source() {
    let sf = SpeedFeatures::set_allintra(6, false, false);
    assert!(sf.prune_smooth_intra_mode_for_chroma);
    assert_eq!(sf.prune_filter_intra_level, 2);
    assert_eq!(sf.chroma_intra_pruning_with_hog, 0);
    assert_eq!(sf.intra_pruning_with_hog, 4);
    assert_eq!(sf.cfl_search_range, 1);
    assert_eq!(sf.top_intra_model_count_allowed, 2);
    assert!(sf.adapt_top_model_rd_count_using_neighbors);
    assert!(sf.prune_luma_odd_delta_angles_in_intra);
    assert_eq!(sf.prune_rectangular_split_based_on_qidx, 2);
    assert!(sf.prune_rect_part_using_4x4_var_deviation);
    assert!(sf.prune_rect_part_using_none_pred_mode);
    assert_eq!(sf.prune_sub_8x8_partition_level, 1);
    assert_eq!(sf.prune_part4_search, 3);
    assert_eq!(sf.default_max_partition_size, 9);
    let screen = SpeedFeatures::set_allintra(6, true, false);
    assert_eq!(screen.prune_rectangular_split_based_on_qidx, 0);
    assert_eq!(screen.prune_sub_8x8_partition_level, 0);
    assert_eq!(sf.winner_mode_tx_type_pruning, 3);
    assert!(!sf.prune_tx_type_est_rd);
    assert!(sf.prune_intra_tx_depths_using_nn);
    assert_eq!(sf.perform_coeff_opt, 6);
    assert_eq!(sf.tx_domain_dist_level, 3);
    assert_eq!(sf.multi_winner_mode_type, 0);
    assert_eq!(sf.winner_mode_count_allowed(), 1);
    assert_eq!(sf.prune_winner_mode_eval_level, 1);
    assert_eq!(sf.dc_blk_pred_level, 1);
    assert!(sf.prune_chroma_modes_using_luma_winner);
    assert_eq!(sf.tx_domain_dist_thres_level, 3);
    assert_eq!(sf.fast_intra_tx_type_search, 2);
    assert!(sf.enable_winner_mode_for_coeff_opt);
    assert!(sf.enable_winner_mode_for_use_tx_domain_dist);
    assert!(sf.enable_winner_mode_for_tx_size_srch);
    assert!(sf.use_rd_based_breakout_for_intra_tx_search);
    assert_eq!(sf.intra_cnn_based_part_prune_level, 2);
    let def = sf.tx_type_search_policy_for_stage(DEFAULT_EVAL, false, 0);
    assert_eq!(
        (def.coeff_opt_dist_threshold, def.coeff_opt_satd_threshold),
        (432, 97)
    );
    assert_eq!(
        (
            def.use_transform_domain_distortion,
            def.tx_domain_dist_threshold
        ),
        (2, 0)
    );
    assert_eq!(def.predict_dc_level, 1);
    assert!(!def.prune_tx_type_est_rd);
    let me = sf.tx_type_search_policy_for_stage(MODE_EVAL, false, 0);
    assert_eq!(
        (me.coeff_opt_dist_threshold, me.coeff_opt_satd_threshold),
        (86, 16)
    );
    assert_eq!(
        (
            me.use_transform_domain_distortion,
            me.tx_domain_dist_threshold
        ),
        (2, 0)
    );
    assert_eq!(me.predict_dc_level, 1);
    assert!(me.use_default_intra_tx_type);
    assert_eq!(me.prune_2d_txfm_mode, 5);
    let win = sf.tx_type_search_policy_for_stage(WINNER_MODE_EVAL, false, 0);
    assert_eq!(
        (win.coeff_opt_dist_threshold, win.coeff_opt_satd_threshold),
        (u32::MAX, u32::MAX)
    );
    assert_eq!(
        (
            win.use_transform_domain_distortion,
            win.tx_domain_dist_threshold
        ),
        (2, 0)
    );
    assert_eq!(win.predict_dc_level, 0);
    assert_eq!(win.prune_2d_txfm_mode, 2);
    assert_eq!(sf.tx_size_search_method_for_stage(MODE_EVAL), 2);
    assert_eq!(sf.tx_size_search_method_for_stage(WINNER_MODE_EVAL), 0);
    let sf5 = SpeedFeatures::set_allintra(5, false, false);
    assert!(!sf5.prune_smooth_intra_mode_for_chroma);
    assert_eq!(sf5.cfl_search_range, 3);
    assert!(!sf5.adapt_top_model_rd_count_using_neighbors);
    assert!(!sf5.prune_luma_odd_delta_angles_in_intra);
    assert_eq!(sf5.prune_rectangular_split_based_on_qidx, 0);
    assert!(!sf5.prune_rect_part_using_4x4_var_deviation);
    assert!(!sf5.prune_rect_part_using_none_pred_mode);
    assert_eq!(sf5.prune_sub_8x8_partition_level, 0);
    assert_eq!(sf5.prune_part4_search, 2);
    assert_eq!(sf5.default_max_partition_size, 15);
    assert!(!sf5.prune_intra_tx_depths_using_nn);
    assert_eq!(sf5.prune_winner_mode_eval_level, 0);
    assert_eq!(sf5.dc_blk_pred_level, 0);
    assert_eq!(
        sf5.tx_type_search_policy_for_stage(DEFAULT_EVAL, false, 0)
            .predict_dc_level,
        0
    );
}

#[test]
fn speed7_allintra_deltas_match_source() {
    let sf = SpeedFeatures::set_allintra(7, false, false);
    assert_eq!(sf.default_min_partition_size, 3);
    assert_eq!(sf.partition_search_type, 2);
    assert_eq!(sf.var_part_split_threshold_shift, 7);
    assert!(sf.prune_smooth_intra_mode_for_chroma);
    assert_eq!(sf.prune_filter_intra_level, 2);
    assert_eq!(sf.chroma_intra_pruning_with_hog, 0);
    assert_eq!(sf.intra_pruning_with_hog, 4);
    assert_eq!(sf.cfl_search_range, 1);
    assert_eq!(sf.top_intra_model_count_allowed, 2);
    assert!(sf.adapt_top_model_rd_count_using_neighbors);
    assert!(sf.prune_luma_odd_delta_angles_in_intra);
    assert_eq!(sf.default_max_partition_size, 9);
    assert_eq!(sf.winner_mode_tx_type_pruning, 3);
    assert!(!sf.prune_tx_type_est_rd);
    assert!(sf.prune_intra_tx_depths_using_nn);
    assert_eq!(sf.perform_coeff_opt, 6);
    assert_eq!(sf.tx_domain_dist_level, 3);
    assert_eq!(sf.multi_winner_mode_type, 0);
    assert_eq!(sf.prune_winner_mode_eval_level, 1);
    assert_eq!(sf.dc_blk_pred_level, 1);
    let sf6 = SpeedFeatures::set_allintra(6, false, false);
    assert_eq!(sf6.default_min_partition_size, 0);
    assert_eq!(sf6.partition_search_type, 0);
    assert_eq!(sf6.var_part_split_threshold_shift, 5);
}

#[test]
fn split_threshold_shift_is_8_at_speed_8_alone() {
    let shift = |speed| SpeedFeatures::set_allintra(speed, false, false).var_part_split_threshold_shift;
    assert_eq!([5, 6, 7, 8, 9, 10].map(shift), [5, 5, 7, 8, 7, 7]);
}

#[test]
fn winner_mode_stage_policies_match_c_tables() {
    let mut sf = SpeedFeatures::set_allintra(4, false, false);
    sf.perform_coeff_opt = 5;
    sf.tx_domain_dist_level = 1;
    sf.tx_domain_dist_thres_level = 3;
    sf.enable_winner_mode_for_coeff_opt = true;
    sf.enable_winner_mode_for_use_tx_domain_dist = true;
    sf.winner_mode_tx_type_pruning = 2;
    sf.prune_2d_txfm_mode = 3;
    sf.prune_tx_type_est_rd = true;

    let def = sf.tx_type_search_policy_for_stage(DEFAULT_EVAL, false, 0);
    assert_eq!(
        (def.coeff_opt_dist_threshold, def.coeff_opt_satd_threshold),
        (864, 97)
    );
    let me = sf.tx_type_search_policy_for_stage(MODE_EVAL, false, 0);
    assert_eq!(
        (me.coeff_opt_dist_threshold, me.coeff_opt_satd_threshold),
        (142, 16)
    );
    let win = sf.tx_type_search_policy_for_stage(WINNER_MODE_EVAL, false, 0);
    assert_eq!(
        (win.coeff_opt_dist_threshold, win.coeff_opt_satd_threshold),
        (u32::MAX, u32::MAX),
        "second pass: the optimisation always runs"
    );

    assert_eq!(
        (
            def.use_transform_domain_distortion,
            def.tx_domain_dist_threshold
        ),
        (1, 0)
    );
    assert_eq!(
        (
            me.use_transform_domain_distortion,
            me.tx_domain_dist_threshold
        ),
        (2, 0)
    );
    assert_eq!(
        (
            win.use_transform_domain_distortion,
            win.tx_domain_dist_threshold
        ),
        (0, 0)
    );

    assert_eq!(def.prune_2d_txfm_mode, 3);
    assert_eq!(me.prune_2d_txfm_mode, 4);
    assert_eq!(win.prune_2d_txfm_mode, 0);
    assert!(def.prune_tx_type_est_rd && me.prune_tx_type_est_rd && win.prune_tx_type_est_rd);
    sf.fast_intra_tx_type_search = 2;
    let me2 = sf.tx_type_search_policy_for_stage(MODE_EVAL, false, 0);
    assert!(me2.use_default_intra_tx_type);
    assert!(
        !sf.tx_type_search_policy_for_stage(DEFAULT_EVAL, false, 0)
            .use_default_intra_tx_type
    );
    assert!(
        !sf.tx_type_search_policy_for_stage(WINNER_MODE_EVAL, false, 0)
            .use_default_intra_tx_type
    );

    sf.enable_winner_mode_for_tx_size_srch = true;
    assert_eq!(sf.tx_size_search_method_for_stage(DEFAULT_EVAL), 0);
    assert_eq!(sf.tx_size_search_method_for_stage(MODE_EVAL), 2);
    assert_eq!(sf.tx_size_search_method_for_stage(WINNER_MODE_EVAL), 0);
    sf.enable_winner_mode_for_tx_size_srch = false;
    assert_eq!(sf.tx_size_search_method_for_stage(MODE_EVAL), 0);

    sf.multi_winner_mode_type = 2;
    assert_eq!(sf.winner_mode_count_allowed(), 3);
    sf.multi_winner_mode_type = 1;
    assert_eq!(sf.winner_mode_count_allowed(), 2);
    sf.multi_winner_mode_type = 0;
    assert_eq!(sf.winner_mode_count_allowed(), 1);

    let legacy = sf.tx_type_search_policy(false, 0);
    assert_eq!(
        legacy.coeff_opt_dist_threshold,
        def.coeff_opt_dist_threshold
    );
    assert_eq!(
        legacy.coeff_opt_satd_threshold,
        def.coeff_opt_satd_threshold
    );
    assert_eq!(
        legacy.use_transform_domain_distortion,
        def.use_transform_domain_distortion
    );
    assert_eq!(
        legacy.tx_domain_dist_threshold,
        def.tx_domain_dist_threshold
    );
}

#[test]
fn stage_policies_collapse_when_winner_mode_disabled() {
    let mut sf = SpeedFeatures::set_allintra(3, false, false);
    sf.perform_coeff_opt = 5;
    sf.tx_domain_dist_level = 1;
    sf.tx_domain_dist_thres_level = 3;
    for stage in [DEFAULT_EVAL, MODE_EVAL, WINNER_MODE_EVAL] {
        let p = sf.tx_type_search_policy_for_stage(stage, false, 0);
        assert_eq!(p.coeff_opt_dist_threshold, 864, "stage {stage} coeff dist");
        assert_eq!(p.coeff_opt_satd_threshold, 97, "stage {stage} coeff satd");
        assert_eq!(
            p.use_transform_domain_distortion, 1,
            "stage {stage} txd type"
        );
        assert_eq!(p.tx_domain_dist_threshold, 0, "stage {stage} txd thresh");
    }
}

#[test]
fn speed1_allintra_deltas_match_source() {
    let sf = SpeedFeatures::set_allintra(1, false, false);

    assert_eq!(sf.intra_cnn_based_part_prune_level, 2);
    assert_eq!(sf.reuse_best_prediction_for_part_ab, 1);
    assert_eq!(sf.ml_4_partition_search_level_index, 1);
    assert_eq!(sf.less_rectangular_check_level, 1);
    assert_eq!(sf.prune_palette_search_level, 1);
    assert_eq!(sf.prune_luma_palette_size_search_level, 2);
    assert_eq!(sf.top_intra_model_count_allowed, 3);
    assert_eq!(sf.intra_pruning_with_hog, 1);
    assert_eq!(sf.adaptive_txb_search_level, 2);
    assert_eq!(sf.intra_tx_size_search_init_depth_rect, 1);
    assert_eq!(sf.model_based_prune_tx_search_level, 0);
    assert_eq!(sf.tx_ml_tx_split_thresh, 4000);
    assert_eq!(sf.prune_2d_txfm_mode, TX_TYPE_PRUNE_2);
    assert!(sf.skip_tx_search);
    assert_eq!(sf.perform_coeff_opt, 2);
    assert_eq!(sf.tx_domain_dist_level, 1);
    assert_eq!(sf.tx_domain_dist_thres_level, 1);
    assert_eq!(sf.cdef_pick_method, CDEF_FAST_SEARCH_LVL1);

    let pol = sf.tx_type_search_policy(false, 0);
    assert_eq!(pol.coeff_opt_dist_threshold, 1728);
    assert_eq!(pol.coeff_opt_satd_threshold, u32::MAX);
    assert_eq!(pol.use_transform_domain_distortion, 1);
    assert_eq!(pol.tx_domain_dist_threshold, 22026);
    assert_eq!(pol.adaptive_txb_search_level, 2);
    assert!(pol.skip_tx_search);
}

#[test]
fn speed1_screen_content_disables_cnn_prune() {
    let sf = SpeedFeatures::set_allintra(1, true, false);
    assert_eq!(sf.intra_cnn_based_part_prune_level, 0);
    assert_eq!(sf.reuse_best_prediction_for_part_ab, 1);
    assert_eq!(sf.perform_coeff_opt, 2);
}

#[test]
fn speeds_above_the_last_and_below_the_first_are_clamped() {
    assert_eq!(
        SpeedFeatures::set_allintra(-3, false, false),
        SpeedFeatures::set_allintra(0, false, false)
    );
    assert_eq!(
        SpeedFeatures::set_allintra(12, false, false),
        SpeedFeatures::set_allintra(7, false, false)
    );
}

#[test]
fn one_pass_up_to_speed_3() {
    for speed in 0..=3 {
        let sf = SpeedFeatures::set_allintra(speed, false, false);
        assert_eq!(sf.winner_mode_count_allowed(), 1);
        for stage in [DEFAULT_EVAL, MODE_EVAL, WINNER_MODE_EVAL] {
            assert_eq!(
                sf.tx_size_search_method_for_stage(stage),
                sf.tx_size_search_method_for_stage(DEFAULT_EVAL)
            );
        }
    }
}

#[test]
fn chroma_is_pruned_by_one_means() {
    for speed in 0..8 {
        for screen in [false, true] {
            let sf = SpeedFeatures::set_allintra(speed, screen, false);
            assert!(sf.chroma_intra_pruning_with_hog == 0 || !sf.prune_chroma_modes_using_luma_winner);
        }
    }
}
