//! Settings of the encoder by speed level, for key frames of all-intra coding.
//!
//! A speed level trades quality for time. Each setting is a step function of
//! the speed; levels above the last step behave like it.

use vstd::prelude::*;

use crate::tx_search::TxTypeSearchPolicy;

verus! {

/// Evaluation stage of a single pass.
pub const DEFAULT_EVAL: usize = 0;

/// First stage of two passes: all modes, cheaply.
pub const MODE_EVAL: usize = 1;

/// Second stage of two passes: the winners, accurately.
pub const WINNER_MODE_EVAL: usize = 2;

/// Mean squared errors from which distortion is measured on coefficients, by
/// level and stage.
pub const TX_DOMAIN_DIST_THRESHOLDS: [[u32; 3]; 4] = [
    [4294967295, 4294967295, 4294967295],
    [22026, 22026, 22026],
    [1377, 1377, 1377],
    [0, 0, 0],
];

/// Distortion domains by level and stage.
pub const TX_DOMAIN_DIST_TYPES: [[u32; 3]; 4] = [[0, 2, 0], [1, 2, 0], [2, 2, 0], [2, 2, 2]];

/// Coefficient optimisation thresholds by level and stage: on the distortion
/// and on the absolute transformed differences.
pub const COEFF_OPT_THRESHOLDS: [[[u32; 2]; 3]; 9] = [
    [[4294967295, 4294967295], [4294967295, 4294967295], [4294967295, 4294967295]],
    [[3200, 4294967295], [250, 4294967295], [4294967295, 4294967295]],
    [[1728, 4294967295], [142, 4294967295], [4294967295, 4294967295]],
    [[864, 4294967295], [142, 4294967295], [4294967295, 4294967295]],
    [[432, 4294967295], [86, 4294967295], [4294967295, 4294967295]],
    [[864, 97], [142, 16], [4294967295, 4294967295]],
    [[432, 97], [86, 16], [4294967295, 4294967295]],
    [[216, 25], [86, 10], [4294967295, 4294967295]],
    [[216, 25], [0, 10], [4294967295, 4294967295]],
];

/// Transform type prune levels of the two passes, by winner mode level.
pub const PRUNE_MODE: [[i32; 2]; 4] = [[3, 0], [4, 0], [5, 2], [5, 3]];

/// Levels of the flat block prediction, by level and stage.
pub const PREDICT_DC_LEVELS: [[u32; 3]; 4] = [[0, 0, 0], [1, 1, 0], [2, 2, 0], [2, 2, 2]];

/// Transform size search methods by level and stage: 0 for the full search,
/// 1 for the fast one, 2 for the largest size only.
pub const TX_SIZE_SEARCH_METHODS: [[usize; 3]; 4] = [[0, 2, 0], [1, 2, 0], [2, 2, 0], [2, 2, 2]];

/// Transform type prune level at speed 0.
pub const TX_TYPE_PRUNE_1: i32 = 1;

/// Transform type prune level at speed 1.
pub const TX_TYPE_PRUNE_2: i32 = 2;

/// Full search of the directional filter's strength.
pub const CDEF_FULL_SEARCH: i32 = 0;

/// Reduced search of the directional filter's strength.
pub const CDEF_FAST_SEARCH_LVL1: i32 = 1;

/// Number of modelled luma modes that are fully evaluated at speed 0.
pub const TOP_INTRA_MODEL_COUNT: i32 = 4;

/// The settings of one speed level.
#[derive(Clone, Copy, Debug, PartialEq, Eq, Structural)]
pub struct SpeedFeatures {
    // Partition search.
    /// How eagerly rectangular partitions are dropped at the split stage.
    pub less_rectangular_check_level: i32,
    /// Level of the network that prunes splits of intra superblocks.
    pub intra_cnn_based_part_prune_level: i32,
    /// Seed the modes of the three-way partitions from earlier results.
    pub reuse_best_prediction_for_part_ab: i32,
    /// Row of thresholds of the four-way partition network.
    pub ml_4_partition_search_level_index: i32,
    /// Drop rectangular partitions of small blocks by quantizer index.
    pub prune_rectangular_split_based_on_qidx: i32,
    /// Drop rectangular partitions where the variance hardly varies.
    pub prune_rect_part_using_4x4_var_deviation: bool,
    /// Drop rectangular partitions by the mode of the whole block.
    pub prune_rect_part_using_none_pred_mode: bool,
    /// Drop splits of 8x8 blocks beside larger neighbours.
    pub prune_sub_8x8_partition_level: i32,
    /// Width gate of the four-way partitions.
    pub prune_part4_search: i32,
    /// Largest block size of the partition search.
    pub default_max_partition_size: usize,
    /// Smallest block size of the partition search.
    pub default_min_partition_size: usize,
    /// 0: search the partitions, 2: fix them from variances.
    pub partition_search_type: i32,
    // Variance partitioning.
    /// Shift of the 8x8 split threshold.
    pub var_part_split_threshold_shift: i32,
    // Intra modes.
    /// Level of the luma direction prune by gradients.
    pub intra_pruning_with_hog: i32,
    /// The same for chroma; off whenever the luma winner prunes chroma.
    pub chroma_intra_pruning_with_hog: i32,
    /// Try only the chroma modes that go with the luma winner.
    pub prune_chroma_modes_using_luma_winner: bool,
    /// Drop the one-directional smooth modes.
    pub disable_smooth_intra: bool,
    /// 1: only filter modes of the best mode so far, 2: none.
    pub prune_filter_intra_level: i32,
    /// Level of the palette search prune.
    pub prune_palette_search_level: i32,
    /// Level of the luma palette size prune.
    pub prune_luma_palette_size_search_level: i32,
    /// Number of modelled luma modes that are fully evaluated.
    pub top_intra_model_count_allowed: i32,
    /// Lower that number where the neighbours' modes differ.
    pub adapt_top_model_rd_count_using_neighbors: bool,
    /// Drop odd angle steps between two poor even ones.
    pub prune_luma_odd_delta_angles_in_intra: bool,
    /// Drop the smooth chroma mode on flat chroma.
    pub prune_smooth_intra_mode_for_chroma: bool,
    /// Radius of the chroma-from-luma refinement.
    pub cfl_search_range: i32,
    // Transform search.
    /// Aggressiveness of the transform block early exits.
    pub adaptive_txb_search_level: i32,
    /// First transform depth of rectangular intra blocks.
    pub intra_tx_size_search_init_depth_rect: i32,
    /// First transform depth of square intra blocks.
    pub intra_tx_size_search_init_depth_sqr: i32,
    /// Model-based prune of the transform search.
    pub model_based_prune_tx_search_level: i32,
    /// Use the chroma table of trellis multipliers.
    pub use_chroma_trellis_rd_mult: bool,
    /// Stop the depth sweep at the best cost so far.
    pub use_rd_based_breakout_for_intra_tx_search: bool,
    // Transform type search.
    /// Threshold of the transform split network.
    pub tx_ml_tx_split_thresh: i32,
    /// Level of the transform type prune.
    pub prune_2d_txfm_mode: i32,
    /// Stop once the best type quantizes to nothing.
    pub skip_tx_search: bool,
    /// Use the reduced set of intra transform types.
    pub use_reduced_intra_txset: bool,
    /// At 2 the first pass tries only the default type of a mode.
    pub fast_intra_tx_type_search: i32,
    /// Row of the per-stage type prune levels; 0 for none.
    pub winner_mode_tx_type_pruning: i32,
    /// Prune transform types by estimated cost.
    pub prune_tx_type_est_rd: bool,
    // Winner modes.
    /// Select the coefficient thresholds by stage.
    pub enable_winner_mode_for_coeff_opt: bool,
    /// Select the distortion domain by stage.
    pub enable_winner_mode_for_use_tx_domain_dist: bool,
    /// Select the transform size search by stage.
    pub enable_winner_mode_for_tx_size_srch: bool,
    /// How many winners are evaluated again: one, two or three.
    pub multi_winner_mode_type: i32,
    /// Row of the transform size search methods.
    pub tx_size_search_level: i32,
    /// Skip the second pass on blocks of low variance.
    pub prune_winner_mode_eval_level: i32,
    /// Row of the levels at which blocks are predicted to have no detail.
    pub dc_blk_pred_level: i32,
    // Transform depth.
    /// Prune the transform depths of 8x8 blocks by a network.
    pub prune_intra_tx_depths_using_nn: bool,
    // Rate and distortion.
    /// Row of the coefficient optimisation thresholds.
    pub perform_coeff_opt: i32,
    /// Row of the distortion domains.
    pub tx_domain_dist_level: i32,
    /// Row of the distortion domain thresholds.
    pub tx_domain_dist_thres_level: i32,
    // Loop filters.
    /// Method of the directional filter's strength search.
    pub cdef_pick_method: i32,
    /// Penalty of the dual self-guided filter.
    pub dual_sgr_penalty_level: i32,
    /// Prune the self-guided filter parameters.
    pub enable_sgr_ep_pruning: i32,
}

impl SpeedFeatures {
    /// The settings of a speed as a value: each a step function of the speed,
    /// some of them different on screen content.
    pub open spec fn allintra(speed: int, screen: bool) -> SpeedFeatures {
        SpeedFeatures {
            less_rectangular_check_level: if speed >= 3 { 2 } else { 1 },
            intra_cnn_based_part_prune_level: if speed >= 5 {
                if screen {
                    1
                } else {
                    2
                }
            } else if speed >= 1 {
                if screen {
                    0
                } else {
                    2
                }
            } else {
                0
            },
            reuse_best_prediction_for_part_ab: if speed >= 1 { 1 } else { 0 },
            ml_4_partition_search_level_index: if speed >= 3 {
                3
            } else if speed >= 2 {
                2
            } else if speed >= 1 {
                1
            } else {
                0
            },
            prune_rectangular_split_based_on_qidx: if speed >= 6 {
                if screen {
                    0
                } else {
                    2
                }
            } else {
                0
            },
            prune_rect_part_using_4x4_var_deviation: speed >= 6,
            prune_rect_part_using_none_pred_mode: speed >= 6,
            prune_sub_8x8_partition_level: if speed >= 6 { if screen { 0 } else { 1 } } else { 0 },
            prune_part4_search: if speed >= 6 { 3 } else { 2 },
            default_max_partition_size: if speed >= 6 { 9 } else { 15 },
            default_min_partition_size: if speed >= 7 { 3 } else { 0 },
            partition_search_type: if speed >= 7 { 2 } else { 0 },
            var_part_split_threshold_shift: if speed == 8 {
                8
            } else if speed >= 7 {
                7
            } else {
                5
            },
            intra_pruning_with_hog: if speed >= 6 {
                4
            } else if speed >= 3 {
                3
            } else if speed >= 2 {
                2
            } else {
                1
            },
            chroma_intra_pruning_with_hog: if speed >= 4 { 0 } else if speed >= 3 { 2 } else { 0 },
            prune_chroma_modes_using_luma_winner: speed >= 4,
            disable_smooth_intra: speed >= 2,
            prune_filter_intra_level: if speed >= 6 { 2 } else if speed >= 2 { 1 } else { 0 },
            prune_palette_search_level: if speed >= 3 { 2 } else if speed >= 1 { 1 } else { 0 },
            prune_luma_palette_size_search_level: if speed >= 1 { 2 } else { 1 },
            top_intra_model_count_allowed: if speed >= 6 {
                2
            } else if speed >= 1 {
                3
            } else {
                TOP_INTRA_MODEL_COUNT
            },
            adapt_top_model_rd_count_using_neighbors: speed >= 6,
            prune_luma_odd_delta_angles_in_intra: speed >= 6,
            prune_smooth_intra_mode_for_chroma: speed >= 6,
            cfl_search_range: if speed >= 6 { 1 } else { 3 },
            adaptive_txb_search_level: if speed >= 1 { 2 } else { 1 },
            intra_tx_size_search_init_depth_rect: if speed >= 1 { 1 } else { 0 },
            intra_tx_size_search_init_depth_sqr: 1,
            model_based_prune_tx_search_level: if speed >= 1 { 0 } else { 1 },
            use_chroma_trellis_rd_mult: true,
            use_rd_based_breakout_for_intra_tx_search: speed >= 3,
            tx_ml_tx_split_thresh: if speed >= 1 { 4000 } else { 8500 },
            prune_2d_txfm_mode: if speed >= 4 {
                3
            } else if speed >= 1 {
                TX_TYPE_PRUNE_2
            } else {
                TX_TYPE_PRUNE_1
            },
            skip_tx_search: speed >= 1,
            use_reduced_intra_txset: true,
            fast_intra_tx_type_search: if speed >= 4 { 2 } else { 0 },
            winner_mode_tx_type_pruning: if speed >= 6 { 3 } else if speed >= 4 { 2 } else { 0 },
            prune_tx_type_est_rd: if speed >= 6 {
                false
            } else if speed >= 4 {
                true
            } else {
                false
            },
            enable_winner_mode_for_coeff_opt: speed >= 4,
            enable_winner_mode_for_use_tx_domain_dist: speed >= 4,
            enable_winner_mode_for_tx_size_srch: speed >= 4,
            multi_winner_mode_type: if speed >= 6 {
                0
            } else if speed >= 5 {
                1
            } else if speed >= 4 {
                2
            } else {
                0
            },
            tx_size_search_level: 0,
            prune_winner_mode_eval_level: if speed >= 6 { 1 } else { 0 },
            dc_blk_pred_level: if speed >= 6 { 1 } else { 0 },
            prune_intra_tx_depths_using_nn: speed >= 6,
            perform_coeff_opt: if speed >= 6 {
                6
            } else if speed >= 4 {
                5
            } else if speed >= 2 {
                3
            } else if speed >= 1 {
                2
            } else {
                1
            },
            tx_domain_dist_level: if speed >= 6 { 3 } else if speed >= 1 { 1 } else { 0 },
            tx_domain_dist_thres_level: if speed >= 4 { 3 } else if speed >= 1 { 1 } else { 0 },
            cdef_pick_method: if speed >= 1 { CDEF_FAST_SEARCH_LVL1 } else { CDEF_FULL_SEARCH },
            dual_sgr_penalty_level: if speed >= 1 { 1 } else { 0 },
            enable_sgr_ep_pruning: if speed >= 1 { 1 } else { 0 },
        }
    }

    /// The settings that the policy of a stage reads index their tables within
    /// bounds.
    pub open spec fn has_policy(self, stage: int) -> bool {
        &&& 0 <= self.perform_coeff_opt < 9
        &&& 0 <= self.tx_domain_dist_level < 4
        &&& 0 <= self.tx_domain_dist_thres_level < 4
        &&& (stage != DEFAULT_EVAL ==> 0 <= self.winner_mode_tx_type_pruning <= 4)
        &&& 0 <= self.dc_blk_pred_level < 4
    }

    /// All settings index their tables within bounds.
    pub open spec fn valid(self) -> bool {
        &&& self.has_policy(MODE_EVAL as int)
        &&& 0 <= self.tx_size_search_level < 4
        &&& 0 <= self.multi_winner_mode_type < 3
    }

    /// The settings of all-intra key frames at a speed.
    /// `allow_screen_content_tools` marks screen content; the sample depth of
    /// the pipeline has no influence.
    pub fn set_allintra(speed: i32, allow_screen_content_tools: bool, _use_hbd: bool) -> (r: Self)
        ensures
            r == Self::allintra(speed as int, allow_screen_content_tools),
            r.valid(),
    {
        let screen = allow_screen_content_tools;
        let mut sf = SpeedFeatures {
            less_rectangular_check_level: 1,
            intra_cnn_based_part_prune_level: 0,
            reuse_best_prediction_for_part_ab: 0,
            ml_4_partition_search_level_index: 0,
            prune_rectangular_split_based_on_qidx: 0,
            prune_rect_part_using_4x4_var_deviation: false,
            prune_rect_part_using_none_pred_mode: false,
            prune_sub_8x8_partition_level: 0,
            prune_part4_search: 2,
            default_max_partition_size: 15,
            default_min_partition_size: 0,
            partition_search_type: 0,
            var_part_split_threshold_shift: 5,
            intra_pruning_with_hog: 1,
            chroma_intra_pruning_with_hog: 0,
            prune_chroma_modes_using_luma_winner: false,
            disable_smooth_intra: false,
            prune_filter_intra_level: 0,
            prune_palette_search_level: 0,
            prune_luma_palette_size_search_level: 1,
            top_intra_model_count_allowed: TOP_INTRA_MODEL_COUNT,
            adapt_top_model_rd_count_using_neighbors: false,
            prune_luma_odd_delta_angles_in_intra: false,
            prune_smooth_intra_mode_for_chroma: false,
            cfl_search_range: 3,
            adaptive_txb_search_level: 1,
            intra_tx_size_search_init_depth_rect: 0,
            intra_tx_size_search_init_depth_sqr: 1,
            model_based_prune_tx_search_level: 1,
            use_chroma_trellis_rd_mult: true,
            use_rd_based_breakout_for_intra_tx_search: false,
            tx_ml_tx_split_thresh: 8500,
            prune_2d_txfm_mode: TX_TYPE_PRUNE_1,
            skip_tx_search: false,
            use_reduced_intra_txset: true,
            fast_intra_tx_type_search: 0,
            winner_mode_tx_type_pruning: 0,
            prune_tx_type_est_rd: false,
            enable_winner_mode_for_coeff_opt: false,
            enable_winner_mode_for_use_tx_domain_dist: false,
            enable_winner_mode_for_tx_size_srch: false,
            multi_winner_mode_type: 0,
            tx_size_search_level: 0,
            prune_winner_mode_eval_level: 0,
            dc_blk_pred_level: 0,
            prune_intra_tx_depths_using_nn: false,
            perform_coeff_opt: 1,
            tx_domain_dist_level: 0,
            tx_domain_dist_thres_level: 0,
            cdef_pick_method: CDEF_FULL_SEARCH,
            dual_sgr_penalty_level: 0,
            enable_sgr_ep_pruning: 0,
        };
        if speed >= 1 {
            sf.intra_cnn_based_part_prune_level = if screen { 0 } else { 2 };
            sf.reuse_best_prediction_for_part_ab = 1;
            sf.ml_4_partition_search_level_index = 1;
            sf.prune_palette_search_level = 1;
            sf.prune_luma_palette_size_search_level = 2;
            sf.top_intra_model_count_allowed = 3;
            sf.adaptive_txb_search_level = 2;
            sf.intra_tx_size_search_init_depth_rect = 1;
            sf.model_based_prune_tx_search_level = 0;
            sf.tx_ml_tx_split_thresh = 4000;
            sf.prune_2d_txfm_mode = TX_TYPE_PRUNE_2;
            sf.skip_tx_search = true;
            sf.perform_coeff_opt = 2;
            sf.tx_domain_dist_level = 1;
            sf.tx_domain_dist_thres_level = 1;
            sf.cdef_pick_method = CDEF_FAST_SEARCH_LVL1;
            sf.dual_sgr_penalty_level = 1;
            sf.enable_sgr_ep_pruning = 1;
        }
        if speed >= 2 {
            sf.ml_4_partition_search_level_index = 2;
            sf.intra_pruning_with_hog = 2;
            sf.disable_smooth_intra = true;
            sf.prune_filter_intra_level = 1;
            sf.perform_coeff_opt = 3;
        }
        if speed >= 3 {
            sf.less_rectangular_check_level = 2;
            sf.ml_4_partition_search_level_index = 3;
            sf.intra_pruning_with_hog = 3;
            sf.chroma_intra_pruning_with_hog = 2;
            sf.prune_palette_search_level = 2;
            sf.use_rd_based_breakout_for_intra_tx_search = true;
        }
        if speed >= 4 {
            sf.prune_chroma_modes_using_luma_winner = true;
            sf.prune_2d_txfm_mode = 3;
            sf.fast_intra_tx_type_search = 2;
            sf.winner_mode_tx_type_pruning = 2;
            sf.prune_tx_type_est_rd = true;
            sf.enable_winner_mode_for_coeff_opt = true;
            sf.enable_winner_mode_for_use_tx_domain_dist = true;
            sf.enable_winner_mode_for_tx_size_srch = true;
            sf.multi_winner_mode_type = 2;
            sf.perform_coeff_opt = 5;
            sf.tx_domain_dist_thres_level = 3;
        }
        if speed >= 5 {
            sf.intra_cnn_based_part_prune_level = if screen { 1 } else { 2 };
            sf.multi_winner_mode_type = 1;
        }
        if speed >= 6 {
            sf.prune_rectangular_split_based_on_qidx = if screen { 0 } else { 2 };
            sf.prune_rect_part_using_4x4_var_deviation = true;
            sf.prune_rect_part_using_none_pred_mode = true;
            sf.prune_sub_8x8_partition_level = if screen { 0 } else { 1 };
            sf.prune_part4_search = 3;
            sf.default_max_partition_size = 9;
            sf.intra_pruning_with_hog = 4;
            sf.prune_filter_intra_level = 2;
            sf.top_intra_model_count_allowed = 2;
            sf.adapt_top_model_rd_count_using_neighbors = true;
            sf.prune_luma_odd_delta_angles_in_intra = true;
            sf.prune_smooth_intra_mode_for_chroma = true;
            sf.cfl_search_range = 1;
            sf.winner_mode_tx_type_pruning = 3;
            sf.prune_tx_type_est_rd = false;
            sf.multi_winner_mode_type = 0;
            sf.prune_winner_mode_eval_level = 1;
            sf.dc_blk_pred_level = 1;
            sf.prune_intra_tx_depths_using_nn = true;
            sf.perform_coeff_opt = 6;
            sf.tx_domain_dist_level = 3;
        }
        if speed >= 7 {
            sf.default_min_partition_size = 3;
            sf.partition_search_type = 2;
            sf.var_part_split_threshold_shift = if speed == 8 { 8 } else { 7 };
        }
        if sf.prune_chroma_modes_using_luma_winner {
            sf.chroma_intra_pruning_with_hog = 0;
        }
        sf
    }
}

/// The column of a table that a stage reads: its own where two passes are
/// enabled for the table, else that of the single pass.
pub open spec fn eval_col(stage: int, enable: bool) -> int {
    if enable {
        stage
    } else {
        DEFAULT_EVAL as int
    }
}

impl SpeedFeatures {
    fn resolve_eval_col(stage: usize, enable: bool) -> (r: usize)
        ensures
            r == eval_col(stage as int, enable),
    {
        if stage == DEFAULT_EVAL || !enable {
            DEFAULT_EVAL
        } else {
            stage
        }
    }

    /// The transform type prune level of a stage.
    pub open spec fn stage_prune(self, stage: int) -> i32 {
        if stage == DEFAULT_EVAL || self.winner_mode_tx_type_pruning == 0 {
            self.prune_2d_txfm_mode
        } else {
            PRUNE_MODE[self.winner_mode_tx_type_pruning - 1][if stage == WINNER_MODE_EVAL {
                1int
            } else {
                0
            }]
        }
    }

    /// The transform type search policy of a stage, as a value.
    pub open spec fn stage_policy(
        self,
        stage: int,
        skip_trellis: bool,
        sharpness: i32,
    ) -> TxTypeSearchPolicy {
        let coeff = COEFF_OPT_THRESHOLDS[self.perform_coeff_opt as int][eval_col(
            stage,
            self.enable_winner_mode_for_coeff_opt,
        )];
        let domain_col = eval_col(stage, self.enable_winner_mode_for_use_tx_domain_dist);
        TxTypeSearchPolicy {
            skip_trellis,
            coeff_opt_dist_threshold: coeff[0],
            coeff_opt_satd_threshold: coeff[1],
            use_transform_domain_distortion: TX_DOMAIN_DIST_TYPES[self.tx_domain_dist_level as int][domain_col] as u8,
            tx_domain_dist_threshold: TX_DOMAIN_DIST_THRESHOLDS[self.tx_domain_dist_thres_level as int][domain_col],
            adaptive_txb_search_level: self.adaptive_txb_search_level,
            skip_tx_search: self.skip_tx_search,
            sharpness,
            use_chroma_trellis_rd_mult: self.use_chroma_trellis_rd_mult,
            intra_tx_size_init_depth_rect: self.intra_tx_size_search_init_depth_rect,
            intra_tx_size_init_depth_sqr: self.intra_tx_size_search_init_depth_sqr,
            use_default_intra_tx_type: stage == MODE_EVAL && self.fast_intra_tx_type_search == 2,
            use_screen_content_tools: false,
            use_rd_based_breakout_for_intra_tx_search: self.use_rd_based_breakout_for_intra_tx_search,
            prune_tx_type_est_rd: self.prune_tx_type_est_rd,
            prune_2d_txfm_mode: self.stage_prune(stage),
            predict_dc_level: PREDICT_DC_LEVELS[self.dc_blk_pred_level as int][stage],
            prune_intra_tx_depths_using_nn: self.prune_intra_tx_depths_using_nn,
        }
    }

    /// The transform type search policy of a single pass. Whether the trellis
    /// is skipped and the sharpness are not a matter of speed.
    pub fn tx_type_search_policy(&self, skip_trellis: bool, sharpness: i32) -> (r:
        TxTypeSearchPolicy)
        requires
            self.has_policy(DEFAULT_EVAL as int),
        ensures
            r == self.stage_policy(DEFAULT_EVAL as int, skip_trellis, sharpness),
    {
        self.tx_type_search_policy_for_stage(DEFAULT_EVAL, skip_trellis, sharpness)
    }

    /// The transform type search policy of one evaluation stage.
    pub fn tx_type_search_policy_for_stage(
        &self,
        stage: usize,
        skip_trellis: bool,
        sharpness: i32,
    ) -> (r: TxTypeSearchPolicy)
        requires
            stage < 3,
            self.has_policy(stage as int),
        ensures
            r == self.stage_policy(stage as int, skip_trellis, sharpness),
    {
        let coeff_col = Self::resolve_eval_col(stage, self.enable_winner_mode_for_coeff_opt);
        let txd_col = Self::resolve_eval_col(stage, self.enable_winner_mode_for_use_tx_domain_dist);
        let coeff_row = COEFF_OPT_THRESHOLDS[self.perform_coeff_opt as usize][coeff_col];
        let wm_prune: i32 = if stage == DEFAULT_EVAL {
            0
        } else {
            self.winner_mode_tx_type_pruning
        };
        let prune_2d_txfm_mode: i32 = if wm_prune != 0 {
            let col: usize = if stage == WINNER_MODE_EVAL {
                1
            } else {
                0
            };
            PRUNE_MODE[(wm_prune - 1) as usize][col]
        } else {
            self.prune_2d_txfm_mode
        };
        TxTypeSearchPolicy {
            skip_trellis,
            coeff_opt_dist_threshold: coeff_row[0],
            coeff_opt_satd_threshold: coeff_row[1],
            use_transform_domain_distortion: TX_DOMAIN_DIST_TYPES[self.tx_domain_dist_level as usize][txd_col] as u8,
            tx_domain_dist_threshold: TX_DOMAIN_DIST_THRESHOLDS[self.tx_domain_dist_thres_level as usize][txd_col],
            adaptive_txb_search_level: self.adaptive_txb_search_level,
            skip_tx_search: self.skip_tx_search,
            sharpness,
            use_chroma_trellis_rd_mult: self.use_chroma_trellis_rd_mult,
            intra_tx_size_init_depth_rect: self.intra_tx_size_search_init_depth_rect,
            intra_tx_size_init_depth_sqr: self.intra_tx_size_search_init_depth_sqr,
            use_default_intra_tx_type: stage == MODE_EVAL && self.fast_intra_tx_type_search == 2,
            use_screen_content_tools: false,
            use_rd_based_breakout_for_intra_tx_search: self.use_rd_based_breakout_for_intra_tx_search,
            prune_tx_type_est_rd: self.prune_tx_type_est_rd,
            prune_2d_txfm_mode,
            predict_dc_level: PREDICT_DC_LEVELS[self.dc_blk_pred_level as usize][stage],
            prune_intra_tx_depths_using_nn: self.prune_intra_tx_depths_using_nn,
        }
    }

    /// The transform size search method of one evaluation stage.
    pub fn tx_size_search_method_for_stage(&self, stage: usize) -> (r: usize)
        requires
            stage < 3 || !self.enable_winner_mode_for_tx_size_srch,
            0 <= self.tx_size_search_level < 4,
        ensures
            r == TX_SIZE_SEARCH_METHODS[self.tx_size_search_level as int][eval_col(
                stage as int,
                self.enable_winner_mode_for_tx_size_srch,
            )],
    {
        let col = Self::resolve_eval_col(stage, self.enable_winner_mode_for_tx_size_srch);
        TX_SIZE_SEARCH_METHODS[self.tx_size_search_level as usize][col]
    }

    /// Number of winners that the first pass keeps.
    pub fn winner_mode_count_allowed(&self) -> (r: usize)
        requires
            0 <= self.multi_winner_mode_type < 3,
        ensures
            r == self.multi_winner_mode_type + 1,
    {
        self.multi_winner_mode_type as usize + 1
    }
}

/// At speed 0 the single-pass policy is the fixed all-intra one.
pub proof fn law_speed0_policy(screen: bool)
    ensures
        SpeedFeatures::allintra(0, screen).stage_policy(DEFAULT_EVAL as int, false, 0)
            == TxTypeSearchPolicy::speed0_policy(true),
{
}

/// From speed 7 on nothing changes any more but the split threshold of
/// variance-based partitioning, at speed 8 alone; below speed 1 nothing does
/// yet.
pub proof fn law_speed_range(speed: int, screen: bool)
    ensures
        speed >= 7 ==> SpeedFeatures::allintra(speed, screen) == (SpeedFeatures {
            var_part_split_threshold_shift: if speed == 8 { 8 } else { 7 },
            ..SpeedFeatures::allintra(7, screen)
        }),
        speed <= 0 ==> SpeedFeatures::allintra(speed, screen) == SpeedFeatures::allintra(0, screen),
{
}

/// Chroma directions are not pruned by gradients where the luma winner
/// already prunes them.
pub proof fn law_chroma_pruned_once(speed: int, screen: bool)
    ensures
        ({
            let sf = SpeedFeatures::allintra(speed, screen);
            sf.prune_chroma_modes_using_luma_winner ==> sf.chroma_intra_pruning_with_hog == 0
        }),
{
}

/// Up to speed 3 winner modes are off for every table.
pub proof fn law_one_pass_up_to_speed_3(speed: int, screen: bool)
    ensures
        ({
            let sf = SpeedFeatures::allintra(speed, screen);
            let enabled = sf.enable_winner_mode_for_coeff_opt
                && sf.enable_winner_mode_for_use_tx_domain_dist
                && sf.enable_winner_mode_for_tx_size_srch;
            let any = sf.enable_winner_mode_for_coeff_opt
                || sf.enable_winner_mode_for_use_tx_domain_dist
                || sf.enable_winner_mode_for_tx_size_srch;
            &&& enabled <==> speed >= 4
            &&& any <==> speed >= 4
        }),
{
}

/// With winner modes off every stage reads the columns of the single pass.
pub proof fn law_stages_agree_without_winner_modes(
    sf: SpeedFeatures,
    stage: int,
    skip_trellis: bool,
    sharpness: i32,
)
    requires
        0 <= stage < 3,
        !sf.enable_winner_mode_for_coeff_opt,
        !sf.enable_winner_mode_for_use_tx_domain_dist,
    ensures
        ({
            let p = sf.stage_policy(stage, skip_trellis, sharpness);
            let q = sf.stage_policy(DEFAULT_EVAL as int, skip_trellis, sharpness);
            &&& p.coeff_opt_dist_threshold == q.coeff_opt_dist_threshold
            &&& p.coeff_opt_satd_threshold == q.coeff_opt_satd_threshold
            &&& p.use_transform_domain_distortion == q.use_transform_domain_distortion
            &&& p.tx_domain_dist_threshold == q.tx_domain_dist_threshold
        }),
{
}

/// Speeds 4 and 5 have the same stage policies, up to the number of winners.
pub proof fn law_speed5_keeps_policies(
    screen: bool,
    stage: int,
    skip_trellis: bool,
    sharpness: i32,
)
    ensures
        SpeedFeatures::allintra(5, screen).stage_policy(stage, skip_trellis, sharpness)
            == SpeedFeatures::allintra(4, screen).stage_policy(stage, skip_trellis, sharpness),
{
}

/// A faster speed searches no more: each prune and approximation named here is
/// at least as strong at every higher speed, and no count or range of
/// candidates grows. Left out are the settings that a higher speed gives up for
/// others, such as the gradient prune of chroma once the luma winner prunes it.
pub proof fn law_faster_speeds_search_no_more(slow: int, fast: int, screen: bool)
    requires
        slow <= fast,
    ensures
        ({
            let (a, b) = (
                SpeedFeatures::allintra(slow, screen),
                SpeedFeatures::allintra(fast, screen),
            );
            &&& a.less_rectangular_check_level <= b.less_rectangular_check_level
            &&& a.intra_cnn_based_part_prune_level <= b.intra_cnn_based_part_prune_level
            &&& a.reuse_best_prediction_for_part_ab <= b.reuse_best_prediction_for_part_ab
            &&& a.ml_4_partition_search_level_index <= b.ml_4_partition_search_level_index
            &&& a.prune_rectangular_split_based_on_qidx <= b.prune_rectangular_split_based_on_qidx
            &&& a.prune_rect_part_using_4x4_var_deviation
                ==> b.prune_rect_part_using_4x4_var_deviation
            &&& a.prune_rect_part_using_none_pred_mode ==> b.prune_rect_part_using_none_pred_mode
            &&& a.prune_sub_8x8_partition_level <= b.prune_sub_8x8_partition_level
            &&& a.prune_part4_search <= b.prune_part4_search
            &&& a.default_max_partition_size >= b.default_max_partition_size
            &&& a.default_min_partition_size <= b.default_min_partition_size
            &&& a.partition_search_type <= b.partition_search_type
            &&& a.intra_pruning_with_hog <= b.intra_pruning_with_hog
            &&& a.prune_chroma_modes_using_luma_winner ==> b.prune_chroma_modes_using_luma_winner
            &&& a.disable_smooth_intra ==> b.disable_smooth_intra
            &&& a.prune_filter_intra_level <= b.prune_filter_intra_level
            &&& a.prune_palette_search_level <= b.prune_palette_search_level
            &&& a.prune_luma_palette_size_search_level <= b.prune_luma_palette_size_search_level
            &&& a.top_intra_model_count_allowed >= b.top_intra_model_count_allowed
            &&& a.adapt_top_model_rd_count_using_neighbors
                ==> b.adapt_top_model_rd_count_using_neighbors
            &&& a.prune_luma_odd_delta_angles_in_intra ==> b.prune_luma_odd_delta_angles_in_intra
            &&& a.prune_smooth_intra_mode_for_chroma ==> b.prune_smooth_intra_mode_for_chroma
            &&& a.cfl_search_range >= b.cfl_search_range
            &&& a.adaptive_txb_search_level <= b.adaptive_txb_search_level
            &&& a.intra_tx_size_search_init_depth_rect <= b.intra_tx_size_search_init_depth_rect
            &&& a.use_rd_based_breakout_for_intra_tx_search
                ==> b.use_rd_based_breakout_for_intra_tx_search
            &&& a.tx_ml_tx_split_thresh >= b.tx_ml_tx_split_thresh
            &&& a.prune_2d_txfm_mode <= b.prune_2d_txfm_mode
            &&& a.skip_tx_search ==> b.skip_tx_search
            &&& a.fast_intra_tx_type_search <= b.fast_intra_tx_type_search
            &&& a.winner_mode_tx_type_pruning <= b.winner_mode_tx_type_pruning
            &&& a.enable_winner_mode_for_coeff_opt ==> b.enable_winner_mode_for_coeff_opt
            &&& a.enable_winner_mode_for_use_tx_domain_dist
                ==> b.enable_winner_mode_for_use_tx_domain_dist
            &&& a.enable_winner_mode_for_tx_size_srch ==> b.enable_winner_mode_for_tx_size_srch
            &&& a.prune_winner_mode_eval_level <= b.prune_winner_mode_eval_level
            &&& a.dc_blk_pred_level <= b.dc_blk_pred_level
            &&& a.prune_intra_tx_depths_using_nn ==> b.prune_intra_tx_depths_using_nn
            &&& a.perform_coeff_opt <= b.perform_coeff_opt
            &&& a.tx_domain_dist_level <= b.tx_domain_dist_level
            &&& a.tx_domain_dist_thres_level <= b.tx_domain_dist_thres_level
            &&& a.cdef_pick_method <= b.cdef_pick_method
            &&& a.dual_sgr_penalty_level <= b.dual_sgr_penalty_level
            &&& a.enable_sgr_ep_pruning <= b.enable_sgr_ep_pruning
        }),
{
}

/// Screen content is pruned no more than camera content, and differs from it in
/// the prunes of its partitions alone.
pub proof fn law_screen_content_is_pruned_no_more(speed: int)
    ensures
        ({
            let (s, c) = (
                SpeedFeatures::allintra(speed, true),
                SpeedFeatures::allintra(speed, false),
            );
            &&& s.intra_cnn_based_part_prune_level <= c.intra_cnn_based_part_prune_level
            &&& s.prune_rectangular_split_based_on_qidx <= c.prune_rectangular_split_based_on_qidx
            &&& s.prune_sub_8x8_partition_level <= c.prune_sub_8x8_partition_level
            &&& s == (SpeedFeatures {
                intra_cnn_based_part_prune_level: s.intra_cnn_based_part_prune_level,
                prune_rectangular_split_based_on_qidx: s.prune_rectangular_split_based_on_qidx,
                prune_sub_8x8_partition_level: s.prune_sub_8x8_partition_level,
                ..c
            })
        }),
{
}

} // verus!
