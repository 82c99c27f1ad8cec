//! The search for transform types and sizes.

use aom_encode::block::{BLOCK_16X16, BLOCK_4X4, BLOCK_8X8};
use aom_encode::tx_search::{
    av1_pixel_diff_dist, choose_tx_size_type_from_rd_intra, dist_block_px_domain_interior,
    ext_tx_set_type,
    get_search_init_depth_intra_speed0, get_tx_mask_intra, get_tx_mask_uv_intra,
    get_txb_visible_dimensions, intra_model_rd_y, pick_uniform_tx_size_type_yrd_intra,
    plan_tx_type_search_intra, search_tx_type_intra, trellis_rdmult, trellis_rdmult_intra,
    trellis_rdmult_intra_y, txfm_rd_in_plane_intra, uniform_txfm_yrd_intra, uv_intra_tx_type,
    RdStats, TxMaskParams, TxTypeSearchInputs, TxTypeSearchPolicy, TxbWinner,
};
use aom_encode::tx_size_search::{
    depth_to_search, stamp_context, subtract_txb, wht_kernel, DepthSweep, PlaneWalk, TxbFigures,
    UniformEval, UniformRates, WhtKernel,
};
use aom_encode::type_search::{
    ac_quantizer_step, far_above, is_trellis_off, normalise_energy, pick_distortion_domain,
    QuantKind, TypeOutcome, TypeSearch, TypeSearchPlan,
};

/// An outcome whose distortion is `dist` in both domains.
fn outcome(eob: u16, rate: i32, dist: i64) -> TypeOutcome {
    TypeOutcome {
        eob,
        txb_ctx: 1,
        txb_skip_ctx: 0,
        dc_sign_ctx: 0,
        coeff_rate: rate,
        type_rate: 0,
        tx_dist: dist,
        tx_sse: dist,
        px_dist: dist,
        qcoeff: vec![i32::from(eob)],
        dqcoeff: vec![rate],
    }
}

fn inputs(residual: &[i16], tx_size: usize) -> TxTypeSearchInputs<'_> {
    TxTypeSearchInputs {
        residual,
        tx_size,
        plane: 0,
        uv_mode: 0,
        mode: 0,
        use_filter_intra: false,
        filter_intra_mode: 0,
        lossless: false,
        reduced_tx_set_used: false,
        bd: 8,
        dequant_ac: 80,
        rdmult: 512,
    }
}

#[test]
fn sets_of_types_shrink_with_the_size() {
    assert_eq!(ext_tx_set_type(0, false, false), 3);
    assert_eq!(ext_tx_set_type(0, true, false), 5);
    assert_eq!(ext_tx_set_type(2, true, false), 4);
    assert_eq!(ext_tx_set_type(2, false, false), 2);
    assert_eq!(ext_tx_set_type(3, true, false), 1);
    assert_eq!(ext_tx_set_type(3, false, false), 0);
    assert_eq!(ext_tx_set_type(4, true, true), 0);
    assert_eq!(ext_tx_set_type(0, true, true), 1);
}

#[test]
fn intra_masks() {
    let p = TxMaskParams::speed0_allintra();
    assert_eq!(get_tx_mask_intra(0, 0, false, 0, false, false, &p), (0x080F, None));
    assert_eq!(get_tx_mask_intra(0, 12, false, 0, false, false, &p), (0x0C0E, None));
    assert_eq!(get_tx_mask_intra(0, 0, true, 1, false, false, &p), (0x040F, None));
    assert_eq!(get_tx_mask_intra(0, 0, false, 0, true, false, &p), (1, Some(0)));
    assert_eq!(get_tx_mask_intra(4, 0, false, 0, false, false, &p), (1, Some(0)));
    assert_eq!(get_tx_mask_intra(2, 0, false, 0, false, false, &p), (0x020F, None));
}

#[test]
fn chroma_follows_the_mode() {
    assert_eq!(uv_intra_tx_type(1, false, 0, false), 1);
    assert_eq!(uv_intra_tx_type(13, false, 0, false), 0);
    assert_eq!(uv_intra_tx_type(1, true, 0, false), 0);
    assert_eq!(uv_intra_tx_type(1, false, 3, false), 0);
    let p = TxMaskParams::speed0_allintra();
    assert_eq!(get_tx_mask_uv_intra(0, 1, 0, false, 0, false, false, &p), (2, 1));
    assert_eq!(get_tx_mask_uv_intra(3, 1, 0, false, 0, false, false, &p), (1, 0));
}

#[test]
fn visible_part_of_a_transform() {
    assert_eq!(get_txb_visible_dimensions(16, 16, 8, 8, 0, 2, 0, 0, 0, 0), (8, 8));
    // Five samples of the block are outside on the right.
    assert_eq!(get_txb_visible_dimensions(16, 16, 8, 8, 0, 2, -40, 0, 0, 0), (3, 8));
    assert_eq!(get_txb_visible_dimensions(16, 16, 8, 8, 2, 0, 0, -96, 0, 0), (8, 0));
}

#[test]
fn squared_differences_of_a_block() {
    let diff: Vec<i16> = (0..64).map(|i| (i % 8) as i16).collect();
    // Rows 0 to 3 of columns 4 to 7.
    let (sse, mse) = av1_pixel_diff_dist(&diff, 8, 0, 1, 4, 4);
    assert_eq!(sse, 4 * (16 + 25 + 36 + 49));
    assert_eq!(mse, 256 * 504 / 16);
    assert_eq!(av1_pixel_diff_dist(&diff, 8, 0, 0, 0, 4), (0, u32::MAX));
}

#[test]
fn trellis_multipliers() {
    assert_eq!(trellis_rdmult_intra_y(1000, 0, 8), (1000 * 8 * 17 + 16) >> 5);
    assert_eq!(trellis_rdmult_intra(1000, 0, 8, 1, true), (1000 * 8 * 13 + 16) >> 5);
    assert_eq!(trellis_rdmult_intra(1000, 0, 8, 1, false), (1000 * 8 * 20 + 16) >> 5);
    assert_eq!(trellis_rdmult_intra_y(1000, 3, 10), (1000 * 5 * 17 * 16 + 16) >> 5);
    assert_eq!(trellis_rdmult(1000, 0, 16, 8, true), (1000 * 8 * 16 + 64) >> 7);
}

#[test]
fn steps_and_energies_are_brought_to_eight_bits() {
    assert_eq!(ac_quantizer_step(80, 8), 10);
    assert_eq!(ac_quantizer_step(320, 10), 10);
    assert_eq!(normalise_energy(1000, 8), 1000);
    assert_eq!(normalise_energy(1000, 10), 63);
}

#[test]
fn trellis_is_left_out_on_large_errors() {
    assert!(is_trellis_off(true, 0, 3200, 10));
    assert!(!is_trellis_off(false, 320000, 3200, 10));
    assert!(is_trellis_off(false, 320001, 3200, 10));
}

#[test]
fn domain_of_the_distortion() {
    assert_eq!(pick_distortion_domain(0, 9, 5, false, false), (false, false));
    assert_eq!(pick_distortion_domain(1, 9, 5, false, false), (true, true));
    assert_eq!(pick_distortion_domain(1, 9, 5, false, true), (false, false));
    assert_eq!(pick_distortion_domain(2, 9, 5, false, true), (true, false));
    assert_eq!(pick_distortion_domain(2, 4, 5, false, false), (false, false));
    assert_eq!(pick_distortion_domain(2, 9, 5, true, false), (false, false));
}

#[test]
fn cost_far_above_the_reference() {
    assert!(!far_above(1000, 0, 0));
    assert!(far_above(1000, 1, 499));
    assert!(!far_above(1000, 1, 500));
    // The last shift takes a negative cost's sign alone.
    assert!(far_above(100, 63, 99) && !far_above(100, 63, 100));
    assert!(far_above(-100, 63, -100) && !far_above(-100, 63, -99));
}

#[test]
fn plan_of_an_intra_search() {
    let residual = [3i16; 16];
    let pol = TxTypeSearchPolicy::speed0_allintra();
    let plan = plan_tx_type_search_intra(&inputs(&residual, 0), &pol);
    assert_eq!(plan.block_sse, 16 * 9 * 16);
    assert_eq!(plan.allowed_tx_mask, 0x080F);
    assert!(!plan.skip_trellis && !plan.use_tx_domain && !plan.final_px_dist);
    assert_eq!(plan.quant_kind(), QuantKind::Fp);
    assert!(plan.is_allowed(0) && plan.is_allowed(11) && !plan.is_allowed(9));
    assert!(!plan.needs_tx_dist(5));
    assert!(plan.needs_px_dist(5, 0));
    assert!(!plan.needs_px_dist(0, 0));
}

#[test]
fn cheapest_type_wins() {
    let residual = [3i16; 16];
    let mut pol = TxTypeSearchPolicy::speed0_allintra();
    pol.adaptive_txb_search_level = 0;
    let mut outs: Vec<TypeOutcome> = (0..16).map(|_| outcome(4, 700, 90)).collect();
    outs[2] = outcome(7, 300, 50);
    outs[11] = outcome(2, 300, 51);
    let win = search_tx_type_intra(&inputs(&residual, 0), &pol, &outs, i64::MAX).unwrap();
    assert_eq!(win.best_tx_type, 2);
    assert_eq!((win.best_eob, win.rate, win.dist), (7, 300, 50));
    // Energies are those of the whole block in the sample domain.
    assert_eq!(win.sse, 16 * 9 * 16);
    // Cost: rate times multiplier over 512, and 128 times the distortion.
    assert_eq!(win.rd, 300 + 50 * 128);
    assert_eq!(win.evaluated_mask, 0x080F);
    assert_eq!(win.qcoeff, vec![7]);
    assert!(!win.skip_txfm);
}

#[test]
fn hopeless_search_stops_early() {
    let residual = [3i16; 16];
    let pol = TxTypeSearchPolicy::speed0_allintra();
    let outs: Vec<TypeOutcome> = (0..16).map(|_| outcome(4, 700, 90)).collect();
    let win = search_tx_type_intra(&inputs(&residual, 0), &pol, &outs, 1).unwrap();
    assert_eq!(win.evaluated_mask, 1);
    assert_eq!(win.best_tx_type, 0);
}

#[test]
fn empty_winner_ends_the_search_where_asked() {
    let residual = [3i16; 16];
    let mut pol = TxTypeSearchPolicy::speed0_allintra();
    pol.skip_tx_search = true;
    let mut outs: Vec<TypeOutcome> = (0..16).map(|_| outcome(4, 10, 90)).collect();
    outs[0] = outcome(0, 0, 0);
    let win = search_tx_type_intra(&inputs(&residual, 0), &pol, &outs, i64::MAX).unwrap();
    assert!(win.skip_txfm);
    assert_eq!(win.evaluated_mask, 1);
    assert_eq!(win.dist, 16 * 9 * 16);
}

#[test]
fn search_in_steps_gives_the_same_winner() {
    let residual = [3i16; 16];
    let pol = TxTypeSearchPolicy::speed0_good();
    let inp = inputs(&residual, 0);
    let outs: Vec<TypeOutcome> = (0..16).map(|t| outcome(3, 900 - 40 * t, 60)).collect();
    let whole = search_tx_type_intra(&inp, &pol, &outs, i64::MAX).unwrap();
    let plan: TypeSearchPlan = plan_tx_type_search_intra(&inp, &pol);
    let mut search = TypeSearch::start();
    let mut from = 0;
    let mut places = Vec::new();
    while let Some((place, t)) = search.next_type(&plan, from) {
        places.push(place);
        from = place + 1;
        assert!(!search.is_stopped());
        if search.rate_alone_loses(&plan, outs[t].coeff_rate) {
            assert!(outs[t].coeff_rate as i64 > whole.rd);
        }
        search.consider(&plan, t, &outs[t], i64::MAX);
    }
    assert_eq!(places, vec![0, 1, 2, 3, 11]);
    let (best, mask) = search.finish();
    let best = best.unwrap();
    assert_eq!(best.tx_type, whole.best_tx_type);
    assert_eq!(best.tx_type, 11);
    assert_eq!((best.rd, mask), (whole.rd, whole.evaluated_mask));
}

fn figures(rate: i32, dist: i64) -> TxbFigures {
    TxbFigures {
        winner: TxbWinner {
            tx_type: 0,
            eob: 1,
            txb_ctx: 3,
        },
        rate,
        dist,
        sse: 2 * dist,
    }
}

#[test]
fn walk_over_a_plane_adds_up() {
    let figs: Vec<TxbFigures> = (0..4).map(|k| figures(100 + k, 10)).collect();
    let ctx = [0i8; 4];
    let (stats, winners) =
        txfm_rd_in_plane_intra(BLOCK_8X8, 0, 512, &ctx, &ctx, i64::MAX, 0, &figs).unwrap();
    assert_eq!((stats.rate, stats.dist, stats.sse), (406, 40, 80));
    assert_eq!(winners.len(), 4);
    // The budget is spent after the first block.
    assert!(txfm_rd_in_plane_intra(BLOCK_8X8, 0, 512, &ctx, &ctx, 1000, 0, &figs).is_none());
    // It is spent from the start.
    assert!(txfm_rd_in_plane_intra(BLOCK_8X8, 0, 512, &ctx, &ctx, 5, 6, &figs).is_none());
}

#[test]
fn walk_in_steps_hands_out_tasks_row_by_row() {
    let ctx = [0i8; 4];
    let mut walk = PlaneWalk::start(BLOCK_8X8, 0, 512, 5000, 7, &ctx, &ctx);
    let mut tasks = Vec::new();
    while let Some(task) = walk.next() {
        tasks.push((task.blk_row, task.blk_col, task.budget));
        walk.commit(figures(512, 1));
    }
    assert_eq!(
        tasks,
        vec![(0, 0, 4993), (0, 1, 4353), (1, 0, 3713), (1, 1, 3073)]
    );
    assert_eq!(walk.above_context(), &vec![3i8, 3]);
    assert_eq!(walk.left_context(), &vec![3i8, 3]);
    let (stats, _) = walk.finish().unwrap();
    assert_eq!(stats.rate, 4 * 512);
}

#[test]
fn contexts_are_stamped_up_to_the_end() {
    let mut ctx = vec![0i8; 4];
    stamp_context(&mut ctx, 2, 4, 9);
    assert_eq!(ctx, vec![0, 0, 9, 9]);
}

#[test]
fn invalid_figures_stay_invalid() {
    let mut a = RdStats::zero();
    a.rate = i32::MAX;
    let b = RdStats {
        rate: 5,
        dist: 6,
        sse: 7,
        skip_txfm: false,
    };
    let before = a;
    a.merge(&b);
    assert_eq!(a.rate, i32::MAX);
    assert_eq!(a.dist, before.dist);
    // Figures of an invalid set are not added, whatever they are.
    let mut d = RdStats {
        rate: 1,
        dist: i64::MAX,
        sse: i64::MIN,
        skip_txfm: true,
    };
    let invalid = RdStats {
        rate: i32::MAX,
        dist: i64::MAX,
        sse: i64::MIN,
        skip_txfm: false,
    };
    d.merge(&invalid);
    assert_eq!((d.rate, d.dist, d.sse, d.skip_txfm), (i32::MAX, i64::MAX, i64::MIN, true));
    let mut c = b;
    c.merge(&b);
    assert_eq!((c.rate, c.dist, c.sse, c.skip_txfm), (10, 12, 14, false));
}

#[test]
fn uniform_size_pays_for_its_signal() {
    let rates = UniformRates {
        rdmult: 512,
        tx_mode_is_select: true,
        tx_size_cost: 30,
        no_skip_txfm_rate: 20,
    };
    assert_eq!(rates.start_cost(BLOCK_8X8), 50);
    assert_eq!(rates.start_cost(BLOCK_4X4), 20);
    let stats = RdStats {
        rate: 100,
        dist: 2,
        sse: 3,
        skip_txfm: false,
    };
    let eval = uniform_txfm_yrd_intra(&rates, BLOCK_8X8, Some((stats, Vec::new())));
    assert_eq!(eval.rd, 150 + 256);
    assert_eq!(eval.result.unwrap().0.rate, 130);
    let none = uniform_txfm_yrd_intra(&rates, BLOCK_8X8, None);
    assert_eq!(none.rd, i64::MAX);
    assert!(none.result.is_none());
}

fn eval(rd: i64) -> UniformEval {
    UniformEval {
        rd,
        result: if rd == i64::MAX {
            None
        } else {
            Some((RdStats::zero(), Vec::new()))
        },
    }
}

#[test]
fn cheapest_depth_wins() {
    let sweep = DepthSweep {
        bsize: BLOCK_16X16,
        source_variance: 1000,
        enable_tx64: true,
        enable_rect_tx: true,
    };
    assert_eq!(get_search_init_depth_intra_speed0(4, 4), 1);
    assert_eq!(get_search_init_depth_intra_speed0(4, 2), 0);
    let evals = vec![eval(1), eval(70), eval(50)];
    let choice = choose_tx_size_type_from_rd_intra(&sweep, &evals).unwrap();
    assert_eq!((choice.best_tx_size, choice.best_rd), (1, 50));
    let evals = vec![eval(1), eval(40), eval(50)];
    let choice = choose_tx_size_type_from_rd_intra(&sweep, &evals).unwrap();
    assert_eq!((choice.best_tx_size, choice.best_rd), (2, 40));
    let evals = vec![eval(1), eval(i64::MAX), eval(i64::MAX)];
    assert!(choose_tx_size_type_from_rd_intra(&sweep, &evals).is_none());
    assert_eq!(depth_to_search(&sweep, &evals, 0), None);
    assert_eq!(depth_to_search(&sweep, &evals, 1), Some(2));
    assert_eq!(depth_to_search(&sweep, &evals, 2), Some(1));
}

#[test]
fn lossless_blocks_take_the_smallest_size() {
    let sweep = DepthSweep {
        bsize: BLOCK_16X16,
        source_variance: 0,
        enable_tx64: true,
        enable_rect_tx: true,
    };
    let choice = pick_uniform_tx_size_type_yrd_intra(true, &eval(9), &sweep, &[]).unwrap();
    assert_eq!((choice.best_tx_size, choice.best_rd), (0, 9));
    let evals = vec![eval(1), eval(40), eval(50)];
    let choice = pick_uniform_tx_size_type_yrd_intra(false, &eval(9), &sweep, &evals).unwrap();
    assert_eq!(choice.best_tx_size, 2);
}

#[test]
fn model_cost_adds_transformed_differences() {
    assert_eq!(intra_model_rd_y(BLOCK_8X8, 0, &[1, 20, 300, 4000]), 4321);
    assert_eq!(wht_kernel(1, 8), WhtKernel::Low8x8);
    assert_eq!(wht_kernel(1, 10), WhtKernel::High8x8);
    assert_eq!(wht_kernel(0, 10), WhtKernel::Low4x4);
}

#[test]
fn residual_is_source_less_prediction() {
    let src: Vec<u16> = (0..40).collect();
    let pred = [5u16; 16];
    let diff = subtract_txb(&src, 2, 8, &pred, 0);
    assert_eq!(&diff[..5], &[-3, -2, -1, 0, 5]);
    assert_eq!(diff[15], 2 + 24 + 3 - 5);
}

#[test]
fn reconstruction_error_is_scaled_to_eight_bits() {
    let mut src = vec![100u16; 7 * 3 + 4 + 2];
    let recon = [100u16; 16];
    assert_eq!(dist_block_px_domain_interior(&recon, 0, &src, 2, 7, 8), 0);
    src[2] = 103;
    src[2 + 3 * 7 + 3] = 96;
    assert_eq!(dist_block_px_domain_interior(&recon, 0, &src, 2, 7, 8), 16 * 25);
    // (25 + 8) / 16 and (25 + 128) / 256.
    assert_eq!(dist_block_px_domain_interior(&recon, 0, &src, 2, 7, 10), 16 * 2);
    assert_eq!(dist_block_px_domain_interior(&recon, 0, &src, 2, 7, 12), 0);
    // What lies between the rows does not matter.
    src[2 + 4] = 0;
    assert_eq!(dist_block_px_domain_interior(&recon, 0, &src, 2, 7, 8), 16 * 25);
}
