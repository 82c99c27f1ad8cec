//! Decisions of the search over modes predicted from frames.

use aom_encode::block::{BLOCK_16X16, BLOCK_4X4, BLOCK_64X64, BLOCK_8X8};
use aom_encode::pred_mode::{
    compound_ref0_mode, compound_ref1_mode, get_candidate_mv, get_drl_refmv_count, PredMode,
    RefMvRow,
};
use aom_encode::rd::rdcost;
use aom_encode::rdopt_single_state::{
    compound_skip_by_single_states, increase_motion_mode_rd, init_comp_avg_est_rd,
    init_top_tx_no_split_rd_for_inter_modes, inter_modes_info_push, inter_offset,
    skip_interp_filter_search, skip_repeated_mv, CompoundRows, InterModeInfoEntry, SingleState,
    SingleStates, StateList, MAX_INTER_MODES, MODE_GOOD, MODE_REALTIME, OBMC_CAUSAL,
    SIMPLE_TRANSLATION, WARPED_CAUSAL,
};
use aom_encode::rdopt_skip::{
    compound_skip_using_neighbor_refs, fetch_picked_ref_frames_mask, find_ref_match_in_nbs,
    find_top_ref, in_single_ref_cutoff, inter_modes_info_sort, is_ref_frame_used_by_compound_ref,
    is_ref_frame_used_in_cache, match_ref_frame, match_ref_frame_pair,
    ref_match_found_in_nb_blocks, skip_compound_using_best_single_mode_ref,
    update_best_single_mode, ModeSkipMask, NbDir, NbMi, RefSet, REF_FRAME_MAP,
};
use aom_encode::rdopt_sse::{get_sse, prune_zero_mv_with_sse, SsePlane, NO_SINGLE_SSE};
use aom_encode::rdopt_var_rd::{
    adjust_cost, adjust_rdcost, get_variance_stats, inter_mode_compatible_skip,
    is_comp_ref_allowed, is_interintra_allowed_bsize, ref_frame_flag, ref_mv_idx_early_breakout,
    AdjustGates, RdStatsCore, RefFrameDistanceInfo, AOM_TUNE_IQ, AOM_TUNE_SSIMULACRA2,
    SINGLE_REFERENCE,
};
use aom_encode::tpl_model::Mv;

fn mv(row: i16, col: i16) -> Mv {
    Mv { row, col }
}

fn row(count: usize) -> RefMvRow {
    RefMvRow {
        count,
        this_mv: [mv(1, 1), mv(2, 2), mv(3, 3), mv(4, 4)],
        comp_mv: [mv(-1, 1), mv(-2, 2), mv(-3, 3), mv(-4, 4)],
        weight: [700, 100, 700, 100],
    }
}

#[test]
fn cost_rounds_the_rate() {
    assert_eq!(rdcost(512, 7, 3), 7 + 3 * 128);
    assert_eq!(rdcost(100, 7, 0), (700 + 256) >> 9);
    assert_eq!(rdcost(100, -7, 0), (-700 + 256) >> 9);
}

#[test]
fn modes_and_their_halves() {
    assert_eq!(inter_offset(PredMode::NewMv), 3);
    assert_eq!(PredMode::NearestMv.to_i32(), 13);
    assert_eq!(PredMode::NewNewMv.to_i32(), 24);
    assert!(PredMode::NewMv.is_inter_singleref() && !PredMode::NewNewMv.is_inter_singleref());
    assert!(PredMode::NearNewMv.have_nearmv() && PredMode::NearNewMv.have_newmv());
    assert_eq!(compound_ref0_mode(PredMode::NearNewMv), Some(PredMode::NearMv));
    assert_eq!(compound_ref1_mode(PredMode::NearNewMv), Some(PredMode::NewMv));
    assert_eq!(compound_ref0_mode(PredMode::NewMv), None);
    assert_eq!(get_drl_refmv_count(PredMode::NewMv, 4), 3);
    assert_eq!(get_drl_refmv_count(PredMode::NearMv, 3), 2);
    assert_eq!(get_drl_refmv_count(PredMode::NearestMv, 4), 1);
    assert_eq!(get_candidate_mv(&row(3), true, false, 0, mv(9, 9)), mv(2, 2));
    assert_eq!(get_candidate_mv(&row(3), false, true, 0, mv(9, 9)), mv(-1, 1));
    assert_eq!(get_candidate_mv(&row(1), true, false, 0, mv(9, 9)), mv(9, 9));
}

#[test]
fn lists_keep_their_order() {
    let mut list = StateList::default();
    for (rd, r) in [(30, 1), (10, 2), (30, 3), (20, 4)] {
        list.insert(SingleState {
            rd,
            ref_frame: Some(r),
            valid: true,
        });
    }
    let refs: Vec<Option<i32>> = list.entries.iter().map(|e| e.ref_frame).collect();
    assert_eq!(refs, vec![Some(2), Some(4), Some(1), Some(3)]);
    assert_eq!(list.count, 4);
}

#[test]
fn collecting_leaves_the_rest_of_a_list() {
    let mark = SingleState {
        rd: 77,
        ref_frame: Some(7),
        valid: false,
    };
    let mut s = SingleStates::init();
    s.simple[0][3].entries = [mark; 4];
    s.modelled[0][3].entries = [mark; 4];
    s.collect(PredMode::NewMv, 2, &row(1), &[40, 30, 35], &[9, 8, 7]);
    assert_eq!(s.simple[0][3].count, 1);
    assert_eq!(s.simple[0][3].entries[0].rd, 40);
    assert_eq!(s.modelled[0][3].entries[0].rd, 9);
    assert_eq!(s.simple[0][3].entries[1..], [mark; 3]);
    assert_eq!(s.modelled[0][3].entries[1..], [mark; 3]);
}

#[test]
fn single_states_prune_costly_references() {
    let mut s = SingleStates::init();
    s.collect(PredMode::NewMv, 1, &row(1), &[100, 5, 5], &[100, 5, 5]);
    s.collect(PredMode::NewMv, 2, &row(1), &[1000, 5, 5], &[1000, 5, 5]);
    s.collect(PredMode::NewMv, 3, &row(1), &[120, 5, 5], &[120, 5, 5]);
    s.analyze(1);
    // (1000 >> 3) * 5 is above 100, (120 >> 3) * 5 is not.
    assert_eq!(s.order[0][3], [Some(1), Some(3), None, None]);
    assert_eq!(s.candidates(1, 0, PredMode::NewMv), 2);
    assert_eq!(s.candidates(3, 0, PredMode::NewMv), 1);
    assert_eq!(s.candidates(4, 0, PredMode::NewMv), 1);
    assert_eq!(s.candidates(1, 1, PredMode::NewMv), 0);

    let rows = CompoundRows {
        compound: &row(1),
        single: [&row(1), &row(1)],
    };
    let global = [mv(0, 0); 8];
    assert!(compound_skip_by_single_states(
        &s,
        1,
        PredMode::NewNewMv,
        [2, 5],
        &rows,
        &global
    ));
    assert!(!compound_skip_by_single_states(
        &s,
        1,
        PredMode::NewNewMv,
        [1, 5],
        &rows,
        &global
    ));
    // A mode with one reference is never skipped here.
    assert!(!compound_skip_by_single_states(
        &s,
        1,
        PredMode::NewMv,
        [1, -1],
        &rows,
        &global
    ));
    // A reference that was not searched is no reason.
    assert!(!compound_skip_by_single_states(
        &s,
        1,
        PredMode::NewNewMv,
        [4, 5],
        &rows,
        &global
    ));
    assert!(!compound_skip_by_single_states(
        &s,
        1,
        PredMode::NewMv,
        [2, 5],
        &rows,
        &global
    ));
}

#[test]
fn repeated_vector_is_skipped_where_it_costs_more() {
    let mut rd = [i64::MAX; 25];
    rd[13] = 77;
    // Costs of the four single modes, nearest first.
    assert!(skip_repeated_mv(
        PredMode::NearMv,
        false,
        0,
        false,
        &[10, 20, 30, 40],
        &mut rd
    ));
    assert_eq!(rd[14], 77);
    assert!(!skip_repeated_mv(
        PredMode::NearMv,
        true,
        0,
        false,
        &[10, 20, 30, 40],
        &mut rd
    ));
    assert!(!skip_repeated_mv(
        PredMode::GlobalMv,
        false,
        0,
        false,
        &[10, 20, 30, 40],
        &mut rd
    ));
    assert!(!skip_repeated_mv(
        PredMode::GlobalMv,
        false,
        0,
        true,
        &[50, 20, 30, 40],
        &mut rd
    ));
}

#[test]
fn buffers_are_reset_where_used() {
    let mut buf = [5i64; 3];
    init_comp_avg_est_rd(&mut buf, 0);
    assert_eq!(buf, [5; 3]);
    init_comp_avg_est_rd(&mut buf, 1);
    assert_eq!(buf, [i64::MAX; 3]);
    let mut buf = [5i64; 3];
    init_top_tx_no_split_rd_for_inter_modes(&mut buf, 0);
    assert_eq!(buf, [5; 3]);
    init_top_tx_no_split_rd_for_inter_modes(&mut buf, 2);
    assert_eq!(buf, [i64::MAX; 3]);
}

#[test]
fn candidate_list_is_bounded() {
    let mut list = Vec::new();
    for _ in 0..MAX_INTER_MODES {
        assert!(inter_modes_info_push(&mut list, InterModeInfoEntry::default()));
    }
    assert!(!inter_modes_info_push(&mut list, InterModeInfoEntry::default()));
    assert_eq!(list.len(), MAX_INTER_MODES);
}

#[test]
fn interpolation_search_is_skipped_by_mode() {
    assert!(skip_interp_filter_search(MODE_REALTIME, 0, false, true, false));
    assert!(!skip_interp_filter_search(MODE_REALTIME, 1, true, true, true));
    assert!(skip_interp_filter_search(MODE_GOOD, 1, true, false, true));
    assert!(!skip_interp_filter_search(MODE_GOOD, 0, true, true, false));
    assert!(!skip_interp_filter_search(2, 0, true, true, true));
}

#[test]
fn motion_modes_are_biased() {
    let (mut best, mut this) = (1000i64, 2000i64);
    increase_motion_mode_rd(
        WARPED_CAUSAL,
        OBMC_CAUSAL,
        &mut best,
        &mut this,
        (10, 1),
        (20, 40),
    );
    assert_eq!((best, this), (1010, 2040));
    increase_motion_mode_rd(
        SIMPLE_TRANSLATION,
        WARPED_CAUSAL,
        &mut best,
        &mut this,
        (10, 1),
        (20, 40),
    );
    assert_eq!((best, this), (1010, 2060));
    let mut none = i64::MAX;
    increase_motion_mode_rd(
        WARPED_CAUSAL,
        WARPED_CAUSAL,
        &mut best,
        &mut none,
        (10, 1),
        (20, 40),
    );
    assert_eq!((best, none), (1010, i64::MAX));
}

#[test]
fn mask_starts_from_a_set_of_references() {
    let full = ModeSkipMask::default_for(RefSet::Full);
    assert!(!full.is_disabled(1, -1) && !full.is_disabled(6, 7));
    let reduced = ModeSkipMask::default_for(RefSet::Reduced);
    let real_time = ModeSkipMask::default_for(RefSet::RealTime);
    // What real time allows, the reduced set allows.
    for a in 0..8 {
        for b in -1..8 {
            if !real_time.is_disabled(a, b) {
                assert!(!reduced.is_disabled(a, b), "({a}, {b})");
            }
        }
    }
    assert!(!real_time.is_disabled(1, -1));
    assert!(real_time.is_disabled(2, -1));

    let mut m = full;
    m.disable_pair(1, 5);
    assert!(m.is_disabled(1, 5) && !m.is_disabled(1, -1));
    assert!(m.says_skip([1, 5], PredMode::NewNewMv));
    m.enable_pair(1, 5);
    assert!(!m.says_skip([1, 5], PredMode::NewNewMv));
    m.disable_reference(4);
    for b in -1..8 {
        assert!(m.is_disabled(4, b));
    }
    m.disable_inter_references_except_altref();
    assert!(m.is_disabled(1, -1) && !m.is_disabled(7, -1));
}

#[test]
fn references_of_neighbours() {
    assert!(match_ref_frame_pair([1, 5], [1, 5]));
    assert!(!match_ref_frame_pair([1, 5], [5, 1]));
    assert!(ref_match_found_in_nb_blocks([1, -1], [4, 1]));
    assert!(ref_match_found_in_nb_blocks([1, 5], [5, -1]));
    assert!(!ref_match_found_in_nb_blocks([1, -1], [5, -1]));

    let nb = |pos: i32| NbMi {
        ref_frame: [if pos < 4 { 3 } else { 6 }, -1],
        bsize: BLOCK_8X8,
        use_intrabc: false,
    };
    assert!(find_ref_match_in_nbs(NbDir::Above, 16, 0, 8, true, [6, -1], &nb));
    assert!(!find_ref_match_in_nbs(NbDir::Above, 4, 0, 8, true, [6, -1], &nb));
    assert!(find_ref_match_in_nbs(NbDir::Left, 4, 0, 8, false, [6, -1], &nb));

    // Blocks of two units are looked at one after the other, up to the end of
    // the side or the first that shares a reference.
    let pair = |pos: i32| {
        assert!(matches!(pos, 10 | 12 | 14), "position {pos} lies on no neighbour");
        NbMi {
            ref_frame: [if pos == 14 { 6 } else { 3 }, -1],
            bsize: BLOCK_8X8,
            use_intrabc: false,
        }
    };
    assert!(find_ref_match_in_nbs(NbDir::Left, 100, 10, 40, true, [6, -1], &pair));
    assert!(!find_ref_match_in_nbs(NbDir::Above, 13, 10, 40, true, [6, -1], &pair));
    assert!(!find_ref_match_in_nbs(NbDir::Above, 100, 10, 4, true, [6, -1], &pair));
    let nowhere = |pos: i32| -> NbMi { panic!("position {pos} is not available") };
    assert!(find_ref_match_in_nbs(NbDir::Left, 4, 0, 8, false, [6, -1], &nowhere));
    assert!(!find_ref_match_in_nbs(NbDir::Left, 4, 4, 8, true, [6, -1], &nowhere));

    let mut found = [false, false];
    match_ref_frame(nb(0), [3, 6], &mut found);
    assert_eq!(found, [true, false]);
    match_ref_frame(nb(5), [3, 6], &mut found);
    assert_eq!(found, [true, true]);
    match_ref_frame(NbMi::default(), [0, 0], &mut [false, false]);
}

#[test]
fn extended_compounds_need_neighbours() {
    let mode = PredMode::NearNewMv;
    let left = NbMi {
        ref_frame: [1, 5],
        bsize: BLOCK_8X8,
        use_intrabc: false,
    };
    assert!(!compound_skip_using_neighbor_refs(mode, [1, 5], 2, Some(left), None));
    assert!(compound_skip_using_neighbor_refs(mode, [1, 6], 2, Some(left), None));
    assert!(!compound_skip_using_neighbor_refs(mode, [1, 6], 1, Some(left), None));
    assert!(compound_skip_using_neighbor_refs(mode, [1, 5], 3, Some(left), Some(left)));
    assert!(!compound_skip_using_neighbor_refs(PredMode::NewNewMv, [1, 5], 3, None, None));
}

#[test]
fn extended_compounds_need_a_new_vector() {
    let mut rd = [i64::MAX; 8];
    let mut mode = [None; 8];
    update_best_single_mode(&mut rd, &mut mode, PredMode::NearMv, 1, 50);
    update_best_single_mode(&mut rd, &mut mode, PredMode::NewMv, 1, 60);
    assert_eq!((rd[1], mode[1]), (50, Some(PredMode::NearMv)));
    update_best_single_mode(&mut rd, &mut mode, PredMode::NewMv, 5, 40);
    // The new half of this mode is the second.
    assert!(!skip_compound_using_best_single_mode_ref(PredMode::NearNewMv, [1, 5], &mode, 1));
    assert!(skip_compound_using_best_single_mode_ref(PredMode::NewNearMv, [1, 5], &mode, 1));
    assert!(!skip_compound_using_best_single_mode_ref(PredMode::NewNearMv, [2, 5], &mode, 1));
    assert!(skip_compound_using_best_single_mode_ref(PredMode::NewNearMv, [2, 5], &mode, 2));
    assert!(!skip_compound_using_best_single_mode_ref(PredMode::NewNewMv, [1, 5], &mode, 2));
}

#[test]
fn references_in_pairs() {
    assert!(is_ref_frame_used_by_compound_ref(1, 0));
    // Every pair masked.
    assert!(!is_ref_frame_used_by_compound_ref(1, 0x1fff_ff00));
    // All but the pair of the second and third last frames.
    let mask = 0x1fff_ff00 & !(1 << (8 + 16));
    assert_eq!(REF_FRAME_MAP[16], [2, 3]);
    assert!(is_ref_frame_used_by_compound_ref(3, mask));
    assert!(!is_ref_frame_used_by_compound_ref(1, mask));

    assert!(!is_ref_frame_used_in_cache(1, None));
    assert!(is_ref_frame_used_in_cache(1, Some([4, 1])));
    for (k, pair) in REF_FRAME_MAP.iter().enumerate() {
        assert!(is_ref_frame_used_in_cache(8 + k as i32, Some(*pair)));
        assert!(!is_ref_frame_used_in_cache(9 + k as i32, Some(*pair)));
    }
}

#[test]
fn masks_of_a_footprint() {
    let mut picked = [0i32; 1024];
    picked[2 * 32 + 3] = 1;
    picked[3 * 32 + 3] = 4;
    picked[4 * 32 + 3] = 8;
    assert_eq!(fetch_picked_ref_frames_mask(18, 18, BLOCK_8X8, 16, &picked), 5);
    assert_eq!(fetch_picked_ref_frames_mask(0, 0, BLOCK_4X4, 16, &picked), 0);
    assert_eq!(fetch_picked_ref_frames_mask(0, 0, BLOCK_64X64, 16, &picked), 13);
}

#[test]
fn limit_is_a_tenth_over_the_best() {
    let mut rd = [i64::MAX; 8];
    find_top_ref(&mut rd);
    assert_eq!(rd[0], i64::MAX);
    rd[3] = 205;
    rd[6] = 226;
    rd[7] = 225;
    find_top_ref(&mut rd);
    assert_eq!(rd[0], 225);
    assert!(in_single_ref_cutoff(&rd, 7, 6));
    assert!(!in_single_ref_cutoff(&rd, 1, 6));
}

#[test]
fn candidates_are_ranked_stably() {
    assert_eq!(
        inter_modes_info_sort(&[30, 10, 30, 20, 10]),
        vec![(1, 10), (4, 10), (3, 20), (0, 30), (2, 30)]
    );
    assert!(inter_modes_info_sort(&[]).is_empty());
}

#[test]
fn flat_blocks_have_no_detail() {
    let src = vec![90u16; 64];
    let dst = vec![30u16; 64];
    assert_eq!(get_variance_stats(BLOCK_8X8, &src, 8, &dst, 8, false), (0, 0));
}

#[test]
fn detail_of_one_bright_sample() {
    // A 4x4 block with 16 at (1, 2). The Gaussian gives 4 there, 2 beside it
    // and 1 at its corners: squares of 12, four times 2, four times 1. The
    // sample reaches no border.
    let mut src = vec![0u16; 16];
    src[4 + 2] = 16;
    let dst = vec![0u16; 16];
    let (src_var, rec_var) = get_variance_stats(BLOCK_4X4, &src, 4, &dst, 4, false);
    assert_eq!((src_var, rec_var), (16 * (144 + 4 * 4 + 4), 0));
}

#[test]
fn last_column_is_hidden_by_the_next_row() {
    let dst = vec![0u16; 16];
    let mut src = vec![0u16; 16];
    src[4 + 3] = 16;
    assert_eq!(get_variance_stats(BLOCK_4X4, &src, 4, &dst, 4, false), (0, 0));
    // The last row has no next one, and its border keeps the sample.
    let mut src = vec![0u16; 16];
    src[12 + 3] = 16;
    let (src_var, _) = get_variance_stats(BLOCK_4X4, &src, 4, &dst, 4, false);
    assert_eq!(src_var, 16 * (3 * 3 + 1));
}

fn gates(tuning: i32, sharpness: i32) -> AdjustGates {
    AdjustGates {
        tuning,
        sharpness,
        frame_is_kf_gf_arf: false,
        rdmult: 512,
    }
}

#[test]
fn costs_are_corrected_for_lost_detail() {
    let mut src = vec![0u16; 16];
    src[4 + 2] = 16;
    let dst = vec![0u16; 16];
    let lost = 16 * 164;
    let cost = |g: AdjustGates, inter: bool| adjust_cost(1000, inter, g, BLOCK_4X4, &src, 4, &dst, 4, false);
    assert_eq!(cost(gates(0, 0), true), 1000);
    assert_eq!(cost(gates(0, 3), true), 1000 + 128 * lost);
    assert_eq!(cost(gates(AOM_TUNE_IQ, 3), true), 1125);
    assert_eq!(cost(gates(AOM_TUNE_SSIMULACRA2, 0), true), 1125);
    assert_eq!(cost(gates(AOM_TUNE_IQ, 0), false), 1000);
    let key = AdjustGates {
        frame_is_kf_gf_arf: true,
        ..gates(0, 3)
    };
    assert_eq!(cost(key, true), 1000);
    // The reconstruction has the detail: nothing is lost.
    assert_eq!(
        adjust_cost(1000, true, gates(0, 3), BLOCK_4X4, &dst, 4, &src, 4, false),
        1000
    );

    let start = RdStatsCore {
        rate: 7,
        dist: 80,
        rdcost: 999,
    };
    let mut rd = start;
    adjust_rdcost(&mut rd, true, gates(0, 3), BLOCK_4X4, &src, 4, &dst, 4, false);
    assert_eq!((rd.rate, rd.dist), (7, 80 + lost));
    assert_eq!(rd.rdcost, 7 + 128 * (80 + lost));
    let mut rd = start;
    adjust_rdcost(&mut rd, true, gates(AOM_TUNE_IQ, 3), BLOCK_4X4, &src, 4, &dst, 4, false);
    assert_eq!((rd.rate, rd.dist, rd.rdcost), (7, 90, 999 + 124));
    let mut rd = start;
    adjust_rdcost(&mut rd, true, gates(0, 1), BLOCK_4X4, &src, 4, &dst, 4, false);
    assert_eq!(rd, start);
    assert_eq!(RdStatsCore::default().rdcost, 0);
}

#[test]
fn modes_that_cannot_be_coded() {
    assert!(is_comp_ref_allowed(BLOCK_8X8) && !is_comp_ref_allowed(1));
    assert!(is_interintra_allowed_bsize(3) && is_interintra_allowed_bsize(9));
    assert!(!is_interintra_allowed_bsize(2) && !is_interintra_allowed_bsize(10));
    assert_eq!(ref_frame_flag(1), 1);
    assert_eq!(ref_frame_flag(7), 64);
    assert_eq!(ref_frame_flag(0), 0);
    let skip = |bsize: usize, refs: [i32; 2], flags: i32, intra: bool, mode: i32, seg: bool| {
        inter_mode_compatible_skip(bsize, PredMode::NewNewMv, refs, flags, intra, mode, seg)
    };
    assert!(!skip(BLOCK_16X16, [1, 5], 0x7f, false, 1, false));
    assert!(skip(BLOCK_4X4, [1, 5], 0x7f, false, 1, false));
    assert!(skip(BLOCK_16X16, [1, 5], 0x6f, false, 1, false));
    assert!(skip(BLOCK_16X16, [1, 5], 0x7f, true, 1, false));
    assert!(skip(BLOCK_16X16, [1, 5], 0x7f, false, SINGLE_REFERENCE, false));
    assert!(skip(BLOCK_16X16, [1, 5], 0x7f, false, 1, true));
    assert!(!skip(BLOCK_16X16, [1, -1], 0, false, 0, true));
    // Blended with prediction within the frame: single modes only.
    assert!(skip(BLOCK_16X16, [1, 0], 0x7f, false, 1, false));
    assert!(!inter_mode_compatible_skip(
        BLOCK_16X16,
        PredMode::NewMv,
        [1, 0],
        0x7f,
        false,
        1,
        false
    ));
    assert!(inter_mode_compatible_skip(
        BLOCK_64X64,
        PredMode::NewMv,
        [1, 0],
        0x7f,
        false,
        1,
        false
    ));
}

#[test]
fn candidates_dropped_before_a_search() {
    let dist = RefFrameDistanceInfo {
        nearest_past_ref: 1,
        nearest_future_ref: 5,
    };
    let run = |reduce: i32, mode: PredMode, refs: [i32; 2], idx: usize, q: bool, best: i64, ok: bool| {
        ref_mv_idx_early_breakout(
            reduce,
            dist,
            mode,
            refs,
            idx,
            q,
            512,
            best,
            &row(3),
            10,
            20,
            30,
            ok,
            7,
        )
    };
    // Candidate 1 is weak.
    assert_eq!(run(1, PredMode::NewMv, [2, -1], 1, false, i64::MAX, true), (true, 7));
    assert_eq!(run(0, PredMode::NewMv, [2, -1], 1, false, i64::MAX, true), (false, 1));
    assert_eq!(run(1, PredMode::NewMv, [4, -1], 1, true, i64::MAX, true), (false, 1));
    assert_eq!(run(2, PredMode::NewMv, [4, -1], 1, true, i64::MAX, true), (true, 7));
    assert_eq!(run(2, PredMode::NewMv, [4, -1], 1, false, i64::MAX, true), (false, 1));
    assert_eq!(run(2, PredMode::NewMv, [1, -1], 1, true, i64::MAX, true), (false, 1));
    // A near mode looks at the candidate after it, which is strong.
    assert_eq!(run(1, PredMode::NearMv, [2, -1], 1, false, i64::MAX, true), (false, 1));
    // Compound modes need the vectors that they build on.
    assert_eq!(run(0, PredMode::NewNewMv, [1, 5], 0, false, i64::MAX, false), (true, 0));
    // A rate of 60 is above 59.
    assert_eq!(run(0, PredMode::NewMv, [1, -1], 0, false, 59, true), (true, 0));
    assert_eq!(run(0, PredMode::NewMv, [1, -1], 0, false, 60, true), (false, 0));
    assert_eq!(run(0, PredMode::NearestMv, [1, -1], 0, false, 59, true), (false, 0));
}

#[test]
fn squared_error_of_planes() {
    let a = [10u8; 16];
    let b = [13u8; 16];
    let plane = |w: usize, h: usize| SsePlane {
        src: &a,
        src_stride: 4,
        dst: &b,
        dst_stride: 4,
        w,
        h,
    };
    let planes = [plane(4, 4), plane(2, 2), plane(2, 1)];
    assert_eq!(get_sse(&planes, true), (16 * 9 * (16 + 4 + 2), 144));
    assert_eq!(get_sse(&planes, false), (16 * 144, 144));
    let same = [SsePlane {
        src: &a,
        src_stride: 4,
        dst: &a,
        dst_stride: 4,
        w: 4,
        h: 4,
    }];
    assert_eq!(get_sse(&same, true), (0, 0));
}

#[test]
fn zero_vectors_are_held_against_the_best() {
    let gm = [0i32; 8];
    let mut best = [NO_SINGLE_SSE; 8];
    best[1] = 100;
    best[5] = 60;
    assert!(!prune_zero_mv_with_sse([1, -1], &gm, &best, &[125], 1));
    assert!(prune_zero_mv_with_sse([1, -1], &gm, &best, &[126], 1));
    assert!(prune_zero_mv_with_sse([1, -1], &gm, &best, &[101], 2));
    assert!(!prune_zero_mv_with_sse([1, -1], &gm, &best, &[100], 2));
    assert!(prune_zero_mv_with_sse([1, 5], &gm, &best, &[100, 101], 1));
    assert!(!prune_zero_mv_with_sse([1, 5], &gm, &best, &[100, 100], 1));
    assert!(!prune_zero_mv_with_sse([2, -1], &gm, &best, &[900], 2));
    let mut moving = gm;
    moving[1] = 2;
    assert!(!prune_zero_mv_with_sse([1, -1], &moving, &best, &[900], 2));
}
