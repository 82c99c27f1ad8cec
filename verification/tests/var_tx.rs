//! Transforms of blocks predicted from a frame.

use aom_encode::block::{BLOCK_16X16, BLOCK_8X8};
use aom_encode::type_search::TypeOutcome;
use aom_encode::var_tx::{
    get_tx_mask_inter, get_tx_mask_inter_uv, get_txb_size_index, pick_recursive_tx_size_type_yrd,
    search_tx_type_inter, trellis_rdmult_inter_uv, trellis_rdmult_inter_y, txfm_uvrd_inter,
    uv_tx_type_inter, DcStats, DcVerdict, InterLeafInputs, InterLeafResult, InterUvEnv,
    LeafSearchSettings, VarTxEnv,
};
use aom_encode::var_tx_tree::{select_tx_size_and_type, LeafEvent, VarTxStep};
use aom_encode::var_tx_uv::{extract_block, UvStep};

fn leaf_inputs(residual: &[i16], tx_size: usize) -> InterLeafInputs<'_> {
    InterLeafInputs {
        residual,
        tx_size,
        lossless: false,
        reduced_tx_set_used: false,
        enable_flip_idtx: true,
        use_inter_dct_only: false,
        bd: 8,
        dequant: [80, 80],
        rdmult: 512,
        visible_cols: 4,
        visible_rows: 4,
        forced_uv_tx_type: None,
        prune_2d: false,
        prune_2d_txfm_mode: 0,
        use_transform_domain_distortion: 0,
        tx_domain_dist_threshold: u32::MAX,
        predict_dc_level: 0,
        skip_tx_search: false,
        type_stats: None,
        predict_skip_zero_blk_rate: 33,
        dc_stats: DcStats {
            per_px_mean: 0,
            coeff_scale: 0,
            raw_var: 0,
            sse: 0,
            mse_q8: 0,
        },
    }
}

fn outcome(eob: u16, rate: i32, dist: i64) -> TypeOutcome {
    TypeOutcome {
        eob,
        txb_ctx: 1,
        txb_skip_ctx: 2,
        dc_sign_ctx: 1,
        coeff_rate: rate,
        type_rate: 0,
        tx_dist: dist,
        tx_sse: dist,
        px_dist: dist,
        qcoeff: vec![1],
        dqcoeff: vec![2],
    }
}

fn settings() -> LeafSearchSettings {
    LeafSearchSettings {
        coeff_opt_dist_threshold: 3200,
        adaptive_txb_search_level: 0,
    }
}

fn leaf(eob: u16, rate: i32, dist: i64, sse: i64) -> InterLeafResult {
    InterLeafResult {
        best_tx_type: 0,
        best_eob: eob,
        best_txb_ctx: 1,
        txb_skip_ctx: 0,
        dc_sign_ctx: 0,
        rate,
        dist,
        sse,
        rd: i64::from(rate) + 128 * dist,
        skip_txfm: eob == 0,
        qcoeff: vec![i32::from(eob)],
        dqcoeff: vec![i32::from(eob)],
        evaluated_mask: 1,
    }
}

#[test]
fn trellis_multipliers_by_plane() {
    assert_eq!(trellis_rdmult_inter_y(1000, 0, 8, false), (1000 * 8 * 16 + 16) >> 5);
    assert_eq!(trellis_rdmult_inter_uv(1000, 0, 8, false), (1000 * 8 * 10 + 16) >> 5);
    assert_eq!(trellis_rdmult_inter_y(1000, 0, 8, true), (1000 * 8 * 16 + 64) >> 7);
}

#[test]
fn masks_by_size() {
    assert_eq!(get_tx_mask_inter(0, false, false, true, false), (0xFFFF, None));
    assert_eq!(get_tx_mask_inter(0, false, false, false, false), (0x000F, None));
    assert_eq!(get_tx_mask_inter(2, false, false, true, false), (0x0FFF, None));
    assert_eq!(get_tx_mask_inter(3, false, false, true, false), (0x0201, None));
    assert_eq!(get_tx_mask_inter(4, false, false, true, false), (1, Some(0)));
    assert_eq!(get_tx_mask_inter(0, true, false, true, false), (1, Some(0)));
    assert_eq!(get_tx_mask_inter_uv(0, 9, false, false, true, false), (1 << 9, 9));
    assert_eq!(get_tx_mask_inter_uv(4, 0, false, false, true, false), (1, 0));
}

#[test]
fn chroma_inherits_the_type_of_luma() {
    let map = [0u8, 1, 2, 3, 9, 5, 6, 7];
    assert_eq!(uv_tx_type_inter(0, false, false, &map, 4, 0, 1, 1, 1), 2);
    assert_eq!(uv_tx_type_inter(0, false, false, &map, 4, 1, 0, 0, 0), 9);
    assert_eq!(uv_tx_type_inter(0, true, false, &map, 4, 0, 1, 1, 1), 0);
    assert_eq!(uv_tx_type_inter(3, false, false, &map, 4, 0, 1, 1, 1), 0);
}

#[test]
fn leaf_search_takes_the_cheapest_type() {
    let residual = [2i16; 16];
    let mut outs: Vec<TypeOutcome> = (0..16).map(|_| outcome(3, 800, 60)).collect();
    outs[13] = outcome(5, 100, 20);
    let win = search_tx_type_inter(
        &leaf_inputs(&residual, 0),
        &settings(),
        None,
        &outs,
        0,
        0,
        0,
        i64::MAX,
    )
    .unwrap();
    assert_eq!((win.best_tx_type, win.best_eob), (13, 5));
    assert_eq!((win.rate, win.dist, win.sse), (100, 20, 16 * 64));
    assert_eq!(win.rd, 100 + 20 * 128);
    assert_eq!(win.evaluated_mask, 0xFFFF);
    assert_eq!((win.txb_skip_ctx, win.dc_sign_ctx), (2, 1));
}

#[test]
fn flat_leaf_is_predicted_empty() {
    let residual = [0i16; 16];
    let mut inp = leaf_inputs(&residual, 0);
    inp.dc_stats.sse = 5;
    assert_eq!(inp.predict_dc(), DcVerdict::Search);
    inp.predict_dc_level = 1;
    // A mean of 0 is below every step.
    inp.dc_stats.raw_var = 179;
    assert_eq!(inp.predict_dc(), DcVerdict::Empty);
    let outs: Vec<TypeOutcome> = (0..16).map(|_| outcome(3, 800, 60)).collect();
    let win = search_tx_type_inter(&inp, &settings(), None, &outs, 0, 7, 2, i64::MAX).unwrap();
    assert!(win.skip_txfm);
    assert_eq!((win.rate, win.dist, win.sse), (33, 80, 80));
    assert_eq!((win.txb_skip_ctx, win.dc_sign_ctx), (7, 2));
    assert_eq!(win.evaluated_mask, 0);
    assert_eq!(win.qcoeff, vec![0; 16]);
    // A variance of 1.8 squared steps is not.
    inp.dc_stats.raw_var = 180;
    assert_eq!(inp.predict_dc(), DcVerdict::Search);
}

#[test]
fn leaf_with_a_mean_is_predicted_dc_only() {
    let residual = [0i16; 16];
    let mut inp = leaf_inputs(&residual, 0);
    inp.predict_dc_level = 2;
    inp.dc_stats.per_px_mean = 4096;
    inp.dc_stats.coeff_scale = 10;
    assert_eq!(inp.predict_dc(), DcVerdict::DcOnly);
    inp.dc_stats.coeff_scale = 9;
    assert_eq!(inp.predict_dc(), DcVerdict::Empty);
    inp.dc_stats.coeff_scale = 10;
    let plan = inp.make_plan(None, 3200, 1);
    assert_eq!(plan.allowed_tx_mask, 1);
    assert!(plan.dc_only_blk);
}

#[test]
fn rare_types_are_dropped() {
    let residual = [2i16; 16];
    let mut inp = leaf_inputs(&residual, 0);
    let mut freq = [0i32; 16];
    freq[3] = 50;
    freq[4] = 9;
    inp.type_stats = Some((freq, 10));
    assert_eq!(inp.make_plan(None, 3200, 1).allowed_tx_mask, 1 << 3);
    inp.type_stats = Some((freq, 9));
    assert_eq!(inp.make_plan(None, 3200, 1).allowed_tx_mask, 1 << 3 | 1 << 4);
}

#[test]
fn pruning_is_asked_for_on_large_sets() {
    let residual = [2i16; 16];
    let mut inp = leaf_inputs(&residual, 0);
    assert_eq!(inp.types_to_prune(), None);
    inp.prune_2d = true;
    inp.prune_2d_txfm_mode = 1;
    assert_eq!(inp.types_to_prune(), Some(0xFFFF));
    inp.enable_flip_idtx = false;
    // Four types are left: too few.
    assert_eq!(inp.types_to_prune(), None);
    inp.prune_2d_txfm_mode = 4;
    assert_eq!(inp.types_to_prune(), Some(0x000F));
    let order = [3usize, 0, 1, 2, 4, 5, 6, 7, 8, 9, 10, 11, 12, 13, 14, 15];
    let plan = inp.make_plan(Some((0x0009, order)), 3200, 1);
    assert_eq!(plan.allowed_tx_mask, 0x0009);
    assert_eq!(plan.txk_map, order);
}

#[test]
fn empty_results_cost_their_energy() {
    let residual = [2i16; 16];
    let empty = leaf_inputs(&residual, 0).empty_result(4, 1);
    assert_eq!((empty.rate, empty.dist, empty.sse), (33, 1024, 1024));
    assert_eq!(empty.rd, 33 + 128 * 1024);
}

#[test]
fn index_of_a_transform_block() {
    assert_eq!(get_txb_size_index(BLOCK_8X8, 0, 0), 0);
    assert_eq!(get_txb_size_index(BLOCK_8X8, 1, 1), 3);
    assert_eq!(get_txb_size_index(BLOCK_16X16, 2, 3), 3);
}

fn tree_env<'a>(
    costs: &'a [[i32; 2]; 21],
    ctx: &'a [i8],
    dims: &'a [u8],
    init_depth: i32,
) -> VarTxEnv<'a> {
    VarTxEnv {
        bsize: BLOCK_8X8,
        max_blocks_wide: 2,
        max_blocks_high: 2,
        lossless: false,
        bd: 8,
        rdmult: 512,
        txfm_partition_cost: costs,
        skip_txfm_cost: [10, 20],
        above_ctx: ctx,
        left_ctx: ctx,
        tx_above: dims,
        tx_left: dims,
        adaptive_txb_search_level: 0,
        txb_split_cap: false,
        ml_tx_split_thresh: -1,
        init_depth,
    }
}

/// Answer every request of the tree with the result of `answer` on the size
/// that is asked for.
fn run_tree(env: &VarTxEnv<'_>, ref_best_rd: i64, answer: impl Fn(usize) -> LeafEvent) -> VarTxStep {
    let mut tape: Vec<LeafEvent> = Vec::new();
    for _ in 0..64 {
        match select_tx_size_and_type(env, &tape, ref_best_rd) {
            VarTxStep::Need(q) => tape.push(answer(q.tx_size)),
            done => return done,
        }
    }
    panic!("the tree asks for too many leaves")
}

fn event(leaf: Option<InterLeafResult>) -> LeafEvent {
    LeafEvent {
        leaf,
        zero_blk_rate: 5,
        split_score: 0,
    }
}

#[test]
fn tree_splits_where_the_parts_are_cheaper() {
    let costs = [[30i32, 40]; 21];
    let ctx = [0i8; 4];
    let dims = [8u8; 4];
    let env = tree_env(&costs, &ctx, &dims, 0);
    // The whole costs a distortion of 100, the four parts 4 together.
    let step = run_tree(&env, i64::MAX, |tx| {
        event(Some(if tx == 1 {
            leaf(9, 50, 100, 400)
        } else {
            leaf(2, 20, 1, 100)
        }))
    });
    match step {
        VarTxStep::Done(rd, res) => {
            assert!(res.valid);
            assert_eq!(res.leaves.len(), 4);
            assert!(res.leaves.iter().all(|l| l.tx_size == 0));
            assert_eq!((res.dist, res.sse), (4, 400));
            assert_eq!(res.rate, 40 + 4 * 20);
            assert_eq!(rd, 120 + 10 + 4 * 128);
            // Each unit lies under exactly one leaf.
            for y in 0..2 {
                for x in 0..2 {
                    let over = res.leaves.iter().filter(|l| (l.blk_row, l.blk_col) == (y, x));
                    assert_eq!(over.count(), 1);
                }
            }
        }
        VarTxStep::Need(_) => unreachable!(),
    }
    // With equal distortion the whole is cheaper.
    let step = run_tree(&env, i64::MAX, |tx| {
        event(Some(if tx == 1 {
            leaf(9, 50, 4, 400)
        } else {
            leaf(2, 20, 1, 100)
        }))
    });
    match step {
        VarTxStep::Done(_, res) => {
            assert_eq!(res.leaves.len(), 1);
            assert_eq!(res.leaves[0].tx_size, 1);
            assert_eq!(res.rate, 50 + 30);
        }
        VarTxStep::Need(_) => unreachable!(),
    }
}

#[test]
fn tree_without_a_budget_is_invalid() {
    let costs = [[30i32, 40]; 21];
    let ctx = [0i8; 4];
    let dims = [8u8; 4];
    let env = tree_env(&costs, &ctx, &dims, 0);
    let res = pick_recursive_tx_size_type_yrd(&env, &[], 0);
    assert!(matches!(res, Ok(r) if !r.valid));
    match pick_recursive_tx_size_type_yrd(&env, &[], i64::MAX) {
        Err(q) => assert_eq!((q.blk_row, q.blk_col, q.tx_size), (0, 0, 1)),
        Ok(_) => panic!("a leaf is asked for first"),
    }
}

#[test]
fn tree_spends_what_the_reference_leaves() {
    let costs = [[30i32, 40]; 21];
    let ctx = [0i8; 4];
    let dims = [8u8; 4];
    let mut env = tree_env(&costs, &ctx, &dims, 0);
    // The header of an empty block costs 20, that of a coded one 10.
    for reference in [i64::MAX - 1, 1 << 62, 1000] {
        match pick_recursive_tx_size_type_yrd(&env, &[], reference) {
            Err(q) => assert_eq!(q.ref_best_rd, reference - 10),
            Ok(_) => panic!("a leaf is asked for first"),
        }
    }
    for reference in [i64::MIN, -1, 9] {
        let res = pick_recursive_tx_size_type_yrd(&env, &[], reference);
        assert!(matches!(res, Ok(r) if !r.valid));
    }
    // The highest level compares a cost less almost nothing of it.
    env.adaptive_txb_search_level = 61;
    let answer = |_| event(Some(leaf(9, 50, 4, 400)));
    match run_tree(&env, 50 + 30 + 4 * 128 + 10, answer) {
        VarTxStep::Done(_, res) => assert!(res.valid && res.leaves.len() == 1),
        VarTxStep::Need(_) => unreachable!(),
    }
    match run_tree(&env, 50 + 30 + 4 * 128 + 9, answer) {
        VarTxStep::Done(_, res) => assert!(!res.valid),
        VarTxStep::Need(_) => unreachable!(),
    }
}

#[test]
fn chroma_adds_both_planes() {
    let ctx = [0i8; 4];
    let env = InterUvEnv {
        uv_tx_size: 0,
        max_blocks_wide: 2,
        max_blocks_high: 1,
        rdmult: 512,
        above_ctx: [&ctx, &ctx],
        left_ctx: [&ctx, &ctx],
    };
    let mut tape: Vec<Option<InterLeafResult>> = Vec::new();
    let mut asked = Vec::new();
    loop {
        match txfm_uvrd_inter(&env, &tape, i64::MAX) {
            UvStep::Need(q) => {
                asked.push((q.plane, q.blk_row, q.blk_col));
                tape.push(Some(leaf(1, 10, 2, 300)));
            }
            UvStep::Done(res) => {
                let res = res.unwrap();
                assert_eq!((res.rate, res.dist, res.sse), (40, 8, 1200));
                assert!(!res.skip_txfm);
                assert_eq!((res.u.len(), res.v.len()), (2, 2));
                break;
            }
        }
    }
    assert_eq!(asked, vec![(0, 0, 0), (0, 0, 1), (1, 0, 0), (1, 0, 1)]);
    // A block without a result ends the search.
    assert!(matches!(txfm_uvrd_inter(&env, &[None], i64::MAX), UvStep::Done(None)));
}

#[test]
fn chroma_without_a_visible_part_is_empty() {
    let ctx = [0i8; 4];
    for (wide, high) in [(0, 2), (2, 0), (0, 0)] {
        let env = InterUvEnv {
            uv_tx_size: 0,
            max_blocks_wide: wide,
            max_blocks_high: high,
            rdmult: 512,
            above_ctx: [&ctx, &ctx],
            left_ctx: [&ctx, &ctx],
        };
        for reference in [0, i64::MAX] {
            match txfm_uvrd_inter(&env, &[], reference) {
                UvStep::Done(Some(res)) => {
                    assert_eq!((res.rate, res.dist, res.sse), (0, 0, 0));
                    assert!(res.skip_txfm && res.u.is_empty() && res.v.is_empty());
                }
                _ => panic!("there is nothing to search"),
            }
        }
        assert!(matches!(txfm_uvrd_inter(&env, &[], -1), UvStep::Done(None)));
    }
}

#[test]
fn chroma_spends_what_the_reference_leaves() {
    let ctx = [0i8; 4];
    let env = InterUvEnv {
        uv_tx_size: 0,
        max_blocks_wide: 2,
        max_blocks_high: 1,
        rdmult: 512,
        above_ctx: [&ctx, &ctx],
        left_ctx: [&ctx, &ctx],
    };
    let reference = i64::MAX - 1;
    let mut tape: Vec<Option<InterLeafResult>> = Vec::new();
    let mut budgets = Vec::new();
    while let UvStep::Need(q) = txfm_uvrd_inter(&env, &tape, reference) {
        budgets.push(q.budget);
        tape.push(Some(leaf(1, 10, 2, 300)));
    }
    // Each block costs 10 + 2 * 128, and each plane starts anew.
    assert_eq!(budgets, vec![reference, reference - 266, reference, reference - 266]);
}

#[test]
fn block_of_a_plane() {
    let plane: Vec<i16> = (0..64).collect();
    let blk = extract_block(&plane, 8, 1, 1, 0);
    assert_eq!(blk.len(), 16);
    assert_eq!((blk[0], blk[5], blk[15]), (36, 45, 63));
}
