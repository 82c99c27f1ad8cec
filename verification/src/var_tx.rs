//! The transform-type search of one leaf of an inter (or block-copy) block's
//! transform tree.

use vstd::prelude::*;

use crate::rd::{rd_value, rdcost};
use crate::samples::abs_int;
use crate::tx_search::{
    av1_pixel_diff_dist,
    ext_tx_set,
    ext_tx_set_type,
    flag_has,
    lemma_single_bit,
    lemma_some_bit,
    residual_mse_q8,
    residual_sse,
    trellis_args,
    trellis_rdmult,
    trellis_value,
    without_flips,
    AV1_EXT_TX_USED_FLAG,
    DCT_ADST_TX_MASK,
    IDENTITY_TXK_MAP,
    TXSIZE_SQR_UP_MAP,
    TXS_H,
    TXS_W,
    TX_TYPES,
};
use crate::type_search::{
    ac_qstep,
    ac_quantizer_step,
    distortion_domain,
    is_trellis_off,
    normalise_energy,
    normalised_sse,
    pick_distortion_domain,
    search_types,
    trellis_off,
    BestModel,
    SearchModel,
    TypeBest,
    TypeOutcome,
    TypeSearchPlan,
};
pub use crate::var_tx_tree::{
    get_txb_size_index,
    pick_recursive_tx_size_type_yrd,
    VarTxEnv,
    VarTxLeaf,
    VarTxResult,
};
pub use crate::var_tx_uv::{
    txfm_uvrd_inter,
    InterUvEnv,
    InterUvLeaf,
    InterUvResult,
};

verus! {

/// The trellis multiplier of luma inter blocks.
pub fn trellis_rdmult_inter_y(rdmult: i32, sharpness: i32, bd: u8, iq_tuning: bool) -> (r: i64)
    requires
        trellis_args(sharpness as int, bd as int),
    ensures
        r == trellis_value(
            rdmult as int,
            sharpness as int,
            16,
            bd as int,
            if iq_tuning {
                7
            } else {
                5
            },
        ),
{
    trellis_rdmult(rdmult, sharpness, 16, bd, iq_tuning)
}

/// The trellis multiplier of chroma inter blocks.
pub fn trellis_rdmult_inter_uv(rdmult: i32, sharpness: i32, bd: u8, iq_tuning: bool) -> (r: i64)
    requires
        trellis_args(sharpness as int, bd as int),
    ensures
        r == trellis_value(
            rdmult as int,
            sharpness as int,
            10,
            bd as int,
            if iq_tuning {
                7
            } else {
                5
            },
        ),
{
    trellis_rdmult(rdmult, sharpness, 10, bd, iq_tuning)
}

/// The types of an inter block's set and whether it is held to DCT.
pub open spec fn inter_set(
    tx_size: int,
    lossless: bool,
    reduced_tx_set_used: bool,
    enable_flip_idtx: bool,
    use_inter_dct_only: bool,
) -> (u16, bool) {
    let flag = AV1_EXT_TX_USED_FLAG[ext_tx_set(tx_size, true, reduced_tx_set_used) as int];
    (
        without_flips(flag, enable_flip_idtx),
        lossless || TXSIZE_SQR_UP_MAP[tx_size] > 3 || flag == 1 || use_inter_dct_only,
    )
}

/// The mask and the type of an inter chroma block, which inherits `uv_tx_type`
/// from luma: DCT where only DCT may be used, and the inherited type where the
/// wanted one is not in the set.
pub open spec fn tx_mask_inter_uv(
    tx_size: int,
    uv_tx_type: usize,
    lossless: bool,
    reduced_tx_set_used: bool,
    enable_flip_idtx: bool,
    use_inter_dct_only: bool,
) -> (u16, usize) {
    let (flag, dct) = inter_set(
        tx_size,
        lossless,
        reduced_tx_set_used,
        enable_flip_idtx,
        use_inter_dct_only,
    );
    let wanted: usize = if dct {
        0
    } else {
        uv_tx_type
    };
    let chosen: usize = if flag_has(flag, wanted) {
        wanted
    } else {
        uv_tx_type
    };
    (1u16 << (chosen as u16), chosen)
}

/// The transform-type mask of an inter chroma block and its one type.
pub fn get_tx_mask_inter_uv(
    tx_size: usize,
    uv_tx_type: usize,
    lossless: bool,
    reduced_tx_set_used: bool,
    enable_flip_idtx: bool,
    use_inter_dct_only: bool,
) -> (r: (u16, usize))
    requires
        tx_size < 19,
        uv_tx_type < 16,
    ensures
        r == tx_mask_inter_uv(
            tx_size as int,
            uv_tx_type,
            lossless,
            reduced_tx_set_used,
            enable_flip_idtx,
            use_inter_dct_only,
        ),
        r.1 < 16,
{
    let set: usize = ext_tx_set_type(tx_size, true, reduced_tx_set_used);
    let mut flag: u16 = AV1_EXT_TX_USED_FLAG[set];
    let mut txk_allowed: usize = uv_tx_type;
    if lossless || TXSIZE_SQR_UP_MAP[tx_size] > 3 || flag == 0x0001 || use_inter_dct_only {
        txk_allowed = 0;
    }
    if !enable_flip_idtx {
        flag = flag & DCT_ADST_TX_MASK;
    }
    let bit: u16 = 1u16 << (txk_allowed as u16);
    if flag & bit == 0 {
        (1u16 << (uv_tx_type as u16), uv_tx_type)
    } else {
        (bit, txk_allowed)
    }
}

/// The types a luma inter block may use and the type it is pinned to. An empty
/// set falls back to DCT.
pub open spec fn tx_mask_inter(
    tx_size: int,
    lossless: bool,
    reduced_tx_set_used: bool,
    enable_flip_idtx: bool,
    use_inter_dct_only: bool,
) -> (u16, Option<usize>) {
    let (flag, dct) = inter_set(
        tx_size,
        lossless,
        reduced_tx_set_used,
        enable_flip_idtx,
        use_inter_dct_only,
    );
    let mask = if dct {
        1 & flag
    } else {
        flag
    };
    if mask == 0 {
        (1, Some(0))
    } else if dct {
        (mask, Some(0))
    } else {
        (mask, None)
    }
}

/// The bitmask of transform types to search for a luma inter block, and the
/// one type it is pinned to.
pub fn get_tx_mask_inter(
    tx_size: usize,
    lossless: bool,
    reduced_tx_set_used: bool,
    enable_flip_idtx: bool,
    use_inter_dct_only: bool,
) -> (r: (u16, Option<usize>))
    requires
        tx_size < 19,
    ensures
        r == tx_mask_inter(
            tx_size as int,
            lossless,
            reduced_tx_set_used,
            enable_flip_idtx,
            use_inter_dct_only,
        ),
{
    let set: usize = ext_tx_set_type(tx_size, true, reduced_tx_set_used);
    let mut flag: u16 = AV1_EXT_TX_USED_FLAG[set];
    let dct = lossless || TXSIZE_SQR_UP_MAP[tx_size] > 3 || flag == 0x0001 || use_inter_dct_only;
    if !enable_flip_idtx {
        flag = flag & DCT_ADST_TX_MASK;
    }
    let mask: u16 = if dct { 1 & flag } else { flag };
    if mask == 0 {
        (1, Some(0))
    } else if dct {
        (mask, Some(0))
    } else {
        (mask, None)
    }
}

/// A luma inter block always has a type to try, and a pinned block has that
/// type alone.
pub proof fn law_tx_mask_inter_is_usable(
    tx_size: int,
    lossless: bool,
    reduced_tx_set_used: bool,
    enable_flip_idtx: bool,
    use_inter_dct_only: bool,
)
    ensures
        ({
            let r = tx_mask_inter(
                tx_size,
                lossless,
                reduced_tx_set_used,
                enable_flip_idtx,
                use_inter_dct_only,
            );
            &&& r.0 != 0
            &&& match r.1 {
                Some(t) => t == 0 && r.0 == 1,
                None => true,
            }
        }),
{
    let flag = inter_set(
        tx_size,
        lossless,
        reduced_tx_set_used,
        enable_flip_idtx,
        use_inter_dct_only,
    ).0;
    assert(1 & flag == 0 || 1 & flag == 1) by (bit_vector);
}

/// The chroma transform type of an inter block: the luma type at the
/// co-located position, DCT where the set does not have it, where nothing is
/// recorded, and for lossless or 64-sample blocks.
pub open spec fn inherited_uv_type(
    tx_size: int,
    lossless: bool,
    reduced_tx_set_used: bool,
    map: Seq<u8>,
    index: int,
) -> int {
    let t = if 0 <= index < map.len() {
        map[index] as int
    } else {
        0
    };
    if lossless || TXSIZE_SQR_UP_MAP[tx_size] > 3 {
        0
    } else if t < 16 && flag_has(
        AV1_EXT_TX_USED_FLAG[ext_tx_set(tx_size, true, reduced_tx_set_used) as int],
        t as usize,
    ) {
        t
    } else {
        0
    }
}

/// The chroma transform type that an inter block inherits. `tx_type_map`
/// holds the luma types in units of four luma samples.
pub fn uv_tx_type_inter(
    tx_size: usize,
    lossless: bool,
    reduced_tx_set_used: bool,
    tx_type_map: &[u8],
    tx_type_map_stride: usize,
    blk_row: usize,
    blk_col: usize,
    ss_x: usize,
    ss_y: usize,
) -> (r: usize)
    requires
        tx_size < 19,
        ss_x <= 1,
        ss_y <= 1,
        blk_row * (1 + ss_y) * tx_type_map_stride + blk_col * (1 + ss_x) <= usize::MAX,
        2 * blk_row <= usize::MAX,
        2 * blk_col <= usize::MAX,
        forall|i: int| 0 <= i < tx_type_map.len() ==> (#[trigger] tx_type_map[i]) < 16,
    ensures
        r == inherited_uv_type(
            tx_size as int,
            lossless,
            reduced_tx_set_used,
            tx_type_map@,
            blk_row * (1 + ss_y) * tx_type_map_stride + blk_col * (1 + ss_x),
        ),
        r < 16,
{
    if lossless || TXSIZE_SQR_UP_MAP[tx_size] > 3 {
        return 0;
    }
    proof {
        assert(blk_row * (1 + ss_y) <= 2 * blk_row && blk_row * (1 + ss_y) >= 0)
            by (nonlinear_arith)
            requires
                0 <= ss_y <= 1,
                blk_row >= 0,
        ;
        assert(blk_col * (1 + ss_x) <= 2 * blk_col && blk_col * (1 + ss_x) >= 0)
            by (nonlinear_arith)
            requires
                0 <= ss_x <= 1,
                blk_col >= 0,
        ;
        assert(blk_row * (1 + ss_y) * tx_type_map_stride >= 0) by (nonlinear_arith)
            requires
                blk_row * (1 + ss_y) >= 0,
                tx_type_map_stride >= 0,
        ;
    }
    let luma_row: usize = blk_row * (1 + ss_y);
    let luma_col: usize = blk_col * (1 + ss_x);
    let index: usize = luma_row * tx_type_map_stride + luma_col;
    let tx_type: usize = if index < tx_type_map.len() { tx_type_map[index] as usize } else { 0 };
    let set: usize = ext_tx_set_type(tx_size, true, reduced_tx_set_used);
    if AV1_EXT_TX_USED_FLAG[set] & (1u16 << (tx_type as u16)) == 0 {
        0
    } else {
        tx_type
    }
}

/// What the type search of one leaf goes by.
pub struct InterLeafInputs<'a> {
    /// Residual of the whole leaf, rows of the transform's width.
    pub residual: &'a [i16],
    pub tx_size: usize,
    pub lossless: bool,
    pub reduced_tx_set_used: bool,
    pub enable_flip_idtx: bool,
    pub use_inter_dct_only: bool,
    pub bd: u8,
    /// Dequantizers of the DC and of the AC coefficients.
    pub dequant: [i16; 2],
    pub rdmult: i32,
    /// The part of the leaf inside the frame.
    pub visible_cols: usize,
    pub visible_rows: usize,
    /// Chroma: the type inherited from luma. `None` for luma.
    pub forced_uv_tx_type: Option<usize>,
    /// The model-based pruning of the type set is on.
    pub prune_2d: bool,
    pub prune_2d_txfm_mode: i32,
    pub use_transform_domain_distortion: u8,
    pub tx_domain_dist_threshold: u32,
    pub predict_dc_level: u32,
    pub skip_tx_search: bool,
    /// With pruning by statistics, the frequency of each type and the
    /// threshold below which a type is dropped.
    pub type_stats: Option<([i32; 16], i32)>,
    /// Rate of an empty block, read when the leaf is predicted to be empty.
    pub predict_skip_zero_blk_rate: i32,
    /// Mean and variance of the residual, read when DC prediction is on.
    pub dc_stats: DcStats,
}

/// Residual statistics of the DC prediction.
#[derive(Clone, Copy, Debug, PartialEq, Eq, Structural)]
pub struct DcStats {
    /// Mean of the residual, in the units that `coeff_scale` brings to the DC
    /// coefficient.
    pub per_px_mean: i64,
    pub coeff_scale: i64,
    /// Variance of the residual.
    pub raw_var: u64,
    /// Energy of the residual and its mean in 1/256 units; with DC prediction
    /// they stand for the leaf's energy throughout the search.
    pub sse: u64,
    pub mse_q8: u32,
}

/// What the residual of a leaf predicts.
#[derive(Clone, Copy, Debug, PartialEq, Eq, Structural)]
pub enum DcVerdict {
    /// Nothing: the types are searched.
    Search,
    /// All coefficients quantize to zero.
    Empty,
    /// At most the DC coefficient survives: only DCT is tried.
    DcOnly,
}

impl<'a> InterLeafInputs<'a> {
    /// The inputs are in range.
    pub open spec fn valid(self) -> bool {
        &&& self.tx_size < 19
        &&& self.visible_cols <= TXS_W[self.tx_size as int]
        &&& self.visible_rows <= TXS_H[self.tx_size as int]
        &&& self.residual.len() >= TXS_W[self.tx_size as int] * TXS_H[self.tx_size as int]
        &&& (self.bd <= 8 || self.bd == 10 || self.bd == 12)
        &&& self.dequant[0] >= 0
        &&& self.dequant[1] >= 0
        &&& self.dc_stats.raw_var <= 0x400_0000_0000
        &&& self.dc_stats.sse <= 0x400_0000_0000
        &&& -0x1_0000_0000 <= self.dc_stats.per_px_mean <= 0x1_0000_0000
        &&& 0 <= self.dc_stats.coeff_scale <= 0x1000_0000
        &&& self.forced_uv_tx_type matches Some(t) ==> t < 16
    }

    /// DC prediction applies to this leaf.
    pub open spec fn predicts_dc(self) -> bool {
        self.predict_dc_level >= 1 && !self.has_64_side()
    }

    pub open spec fn energy(self) -> int {
        if self.predicts_dc() {
            self.dc_stats.sse as int
        } else {
            residual_sse(
                self.residual@,
                TXS_W[self.tx_size as int] as int,
                0,
                0,
                self.visible_cols as int,
                self.visible_rows as int,
            )
        }
    }

    /// Mean squared error at eight bits, in 1/256 units.
    pub open spec fn mse(self) -> int {
        normalised_sse(
            if self.predicts_dc() {
                self.dc_stats.mse_q8 as int
            } else {
                residual_mse_q8(self.energy(), self.visible_cols as int, self.visible_rows as int)
            },
            self.bd as int,
        )
    }

    pub open spec fn qstep(self) -> int {
        ac_qstep(self.dequant[1] as int, self.bd as int)
    }

    pub open spec fn has_64_side(self) -> bool {
        TXS_W[self.tx_size as int] == 64 || TXS_H[self.tx_size as int] == 64
    }

    /// A leaf whose variance is under 1.8 squared quantizer steps is predicted
    /// to be empty when its mean is small too, and at levels above 1 to have
    /// at most a DC coefficient otherwise.
    pub open spec fn dc_verdict(self) -> DcVerdict {
        if self.predicts_dc() && normalised_sse(self.dc_stats.raw_var as int, self.bd as int) < 9 * (
        self.qstep() * self.qstep()) / 5 {
            if abs_int(self.dc_stats.per_px_mean as int) * self.dc_stats.coeff_scale < 4096 * (
            self.dequant[0] as int / 8) {
                DcVerdict::Empty
            } else if self.predict_dc_level > 1 {
                DcVerdict::DcOnly
            } else {
                DcVerdict::Search
            }
        } else {
            DcVerdict::Search
        }
    }

    /// The set of types before pruning, and the pinned type.
    pub open spec fn base_mask(self) -> (u16, Option<usize>) {
        let (mask, pinned) = match self.forced_uv_tx_type {
            Some(uv) => {
                let r = tx_mask_inter_uv(
                    self.tx_size as int,
                    uv,
                    self.lossless,
                    self.reduced_tx_set_used,
                    self.enable_flip_idtx,
                    self.use_inter_dct_only,
                );
                (r.0, Some(r.1))
            },
            None => tx_mask_inter(
                self.tx_size as int,
                self.lossless,
                self.reduced_tx_set_used,
                self.enable_flip_idtx,
                self.use_inter_dct_only,
            ),
        };
        if self.dc_verdict() == DcVerdict::DcOnly {
            (1, pinned)
        } else {
            (mask, pinned)
        }
    }

    /// The set of types after pruning by statistics.
    pub open spec fn stats_mask(self) -> u16 {
        let (mask, pinned) = self.base_mask();
        match self.type_stats {
            Some(st) => if pinned is None && self.forced_uv_tx_type is None {
                drop_rare(mask, st.0, st.1, 16)
            } else {
                mask
            },
            None => mask,
        }
    }

    /// Whether the model-based pruning is to be consulted: it is on, no type
    /// is pinned, and more types are left than it keeps.
    pub open spec fn wants_prune_2d(self) -> bool {
        &&& self.prune_2d
        &&& self.prune_2d_txfm_mode >= 1
        &&& self.base_mask().1 is None
        &&& type_count(self.stats_mask(), 16) > (if self.prune_2d_txfm_mode >= 4 {
            1int
        } else {
            5
        })
    }

    /// The plan of the search. `pruned` is what the model-based pruning says,
    /// a mask and an order, where it was consulted and had something to say.
    pub open spec fn plan(
        self,
        pruned: Option<(u16, [usize; 16])>,
        coeff_opt_dist_threshold: int,
        level: int,
    ) -> TypeSearchPlan {
        let (base, pinned) = self.base_mask();
        let dc_only = self.dc_verdict() == DcVerdict::DcOnly;
        let domain = distortion_domain(
            self.use_transform_domain_distortion as int,
            self.mse(),
            self.tx_domain_dist_threshold as int,
            self.has_64_side() || dc_only,
            pinned is Some || base == 1,
        );
        let use_pruned = self.wants_prune_2d() && pruned is Some;
        TypeSearchPlan {
            tx_size: self.tx_size,
            rdmult: self.rdmult,
            allowed_tx_mask: if use_pruned {
                pruned.unwrap().0
            } else {
                self.stats_mask()
            },
            txk_map: if use_pruned {
                pruned.unwrap().1
            } else {
                IDENTITY_TXK_MAP
            },
            skip_trellis: trellis_off(false, self.mse(), coeff_opt_dist_threshold, self.qstep()),
            use_tx_domain: domain.0,
            final_px_dist: domain.1,
            dc_only_blk: dc_only,
            block_sse: (16 * normalised_sse(self.energy(), self.bd as int)) as i64,
            adaptive_txb_search_level: level as i32,
            skip_tx_search: self.skip_tx_search,
        }
    }
}

/// The most frequent of the first `n` types that the mask has (the first one
/// on a tie), with its frequency; `(0, -1)` when there is none.
pub open spec fn most_frequent(mask: u16, freq: [i32; 16], n: int) -> (int, int)
    decreases n,
{
    if n <= 0 {
        (0, -1)
    } else {
        let m = most_frequent(mask, freq, n - 1);
        if freq[n - 1] > m.1 && flag_has(mask, (n - 1) as usize) {
            (n - 1, freq[n - 1] as int)
        } else {
            m
        }
    }
}

/// The mask without those of the first `n` types whose frequency is under the
/// threshold; the most frequent one stays.
pub open spec fn drop_rare(mask: u16, freq: [i32; 16], threshold: i32, n: int) -> u16
    decreases n,
{
    if n <= 0 {
        mask
    } else {
        let m = drop_rare(mask, freq, threshold, n - 1);
        if freq[n - 1] < threshold && n - 1 != most_frequent(mask, freq, 16).0 {
            m & !(1u16 << ((n - 1) as u16))
        } else {
            m
        }
    }
}

/// Number of types among the first `n` that the mask has.
pub open spec fn type_count(mask: u16, n: int) -> int
    decreases n,
{
    if n <= 0 {
        0
    } else {
        type_count(mask, n - 1) + (if flag_has(mask, (n - 1) as usize) {
            1int
        } else {
            0
        })
    }
}

fn drop_rare_types(mask: u16, freq: &[i32; 16], threshold: i32) -> (r: u16)
    ensures
        r == drop_rare(mask, *freq, threshold, 16),
{
    let mut best: usize = 0;
    let mut best_freq: i32 = -1;
    for i in 0..16usize
        invariant
            (best as int, best_freq as int) == most_frequent(mask, *freq, i as int),
    {
        if freq[i] > best_freq && mask & (1u16 << (i as u16)) != 0 {
            best = i;
            best_freq = freq[i];
        }
    }
    let mut m: u16 = mask;
    for i in 0..16usize
        invariant
            best == most_frequent(mask, *freq, 16).0,
            m == drop_rare(mask, *freq, threshold, i as int),
    {
        if freq[i] < threshold && i != best {
            m = m & !(1u16 << (i as u16));
        }
    }
    m
}

fn count_types(mask: u16) -> (r: u32)
    ensures
        r == type_count(mask, 16),
{
    let mut n: u32 = 0;
    for i in 0..16usize
        invariant
            n == type_count(mask, i as int),
            n <= i,
    {
        if mask & (1u16 << (i as u16)) != 0 {
            n = n + 1;
        }
    }
    n
}

/// The winner of one leaf's type search.
pub struct InterLeafResult {
    pub best_tx_type: usize,
    pub best_eob: u16,
    pub best_txb_ctx: u8,
    pub txb_skip_ctx: usize,
    pub dc_sign_ctx: usize,
    pub rate: i32,
    pub dist: i64,
    pub sse: i64,
    pub rd: i64,
    /// The winner has no coefficients.
    pub skip_txfm: bool,
    pub qcoeff: Vec<i32>,
    pub dqcoeff: Vec<i32>,
    /// Bit `t` is set when type `t` was tried.
    pub evaluated_mask: u16,
}

impl InterLeafResult {
    /// The result carries the figures of this best type; with
    /// `remeasured = Some((dist, sse))` those replace the searched ones.
    pub open spec fn carries(self, b: BestModel, remeasured: Option<(int, int)>) -> bool {
        &&& self.best_tx_type == b.tx_type
        &&& self.best_eob == b.eob
        &&& self.best_txb_ctx == b.txb_ctx
        &&& self.txb_skip_ctx == b.txb_skip_ctx
        &&& self.dc_sign_ctx == b.dc_sign_ctx
        &&& self.rate == b.rate
        &&& self.rd == b.rd
        &&& match remeasured {
            Some(m) => self.dist == m.0 && self.sse == m.1,
            None => self.dist == b.dist && self.sse == b.sse,
        }
        &&& self.skip_txfm == (b.eob == 0)
        &&& self.qcoeff@ == b.qcoeff
        &&& self.dqcoeff@ == b.dqcoeff
    }

    /// The same, with the types that were tried.
    pub open spec fn reports(
        self,
        b: BestModel,
        tried: Set<int>,
        remeasured: Option<(int, int)>,
    ) -> bool {
        &&& self.carries(b, remeasured)
        &&& forall|t: usize|
            t < TX_TYPES ==> #[trigger] flag_has(self.evaluated_mask, t) == tried.contains(t as int)
    }

    /// The result of a search that ended with this best type. `final_px_dist`
    /// is its sample-domain distortion, which is read where the plan asks for
    /// it.
    pub fn of_best(
        plan: &TypeSearchPlan,
        b: TypeBest,
        evaluated_mask: u16,
        final_px_dist: i64,
    ) -> (r: Self)
        ensures
            r.carries(
                b.model(),
                if plan.remeasures(b.eob) {
                    Some((final_px_dist as int, plan.block_sse as int))
                } else {
                    None
                },
            ),
            r.evaluated_mask == evaluated_mask,
    {
        let again = plan.needs_final_px_dist(b.eob);
        InterLeafResult {
            best_tx_type: b.tx_type,
            best_eob: b.eob,
            best_txb_ctx: b.txb_ctx,
            txb_skip_ctx: b.txb_skip_ctx,
            dc_sign_ctx: b.dc_sign_ctx,
            rate: b.rate,
            dist: if again {
                final_px_dist
            } else {
                b.dist
            },
            sse: if again {
                plan.block_sse
            } else {
                b.sse
            },
            rd: b.rd,
            skip_txfm: b.eob == 0,
            qcoeff: b.qcoeff,
            dqcoeff: b.dqcoeff,
            evaluated_mask,
        }
    }

    /// The result of a leaf that is predicted to be empty.
    pub open spec fn is_empty_leaf(
        self,
        inp: InterLeafInputs,
        txb_skip_ctx: usize,
        dc_sign_ctx: usize,
    ) -> bool {
        let dist = 16 * normalised_sse(inp.energy(), inp.bd as int);
        &&& self.best_tx_type == 0
        &&& self.best_eob == 0
        &&& self.best_txb_ctx == 0
        &&& self.txb_skip_ctx == txb_skip_ctx
        &&& self.dc_sign_ctx == dc_sign_ctx
        &&& self.rate == inp.predict_skip_zero_blk_rate
        &&& self.dist == dist
        &&& self.sse == dist
        &&& self.rd == rd_value(inp.rdmult as int, inp.predict_skip_zero_blk_rate as int, dist)
        &&& self.skip_txfm
        &&& self.evaluated_mask == 0
        &&& self.qcoeff@ == Seq::new(
            (TXS_W[inp.tx_size as int] * TXS_H[inp.tx_size as int]) as nat,
            |i: int| 0i32,
        )
        &&& self.dqcoeff@ == self.qcoeff@
    }
}

fn zeros(n: usize) -> (r: Vec<i32>)
    ensures
        r@ == Seq::new(n as nat, |i: int| 0i32),
{
    let mut r: Vec<i32> = Vec::new();
    for i in 0..n
        invariant
            r@ =~= Seq::new(i as nat, |i: int| 0i32),
    {
        r.push(0);
    }
    r
}

impl<'a> InterLeafInputs<'a> {
    fn measure(&self) -> (r: (i64, u32))
        requires
            self.valid(),
        ensures
            r.0 == 16 * normalised_sse(self.energy(), self.bd as int),
            0 <= r.0 <= 0x4000_0000_0000,
            r.1 == self.mse(),
    {
        let w: usize = TXS_W[self.tx_size];
        proof {
            let h = TXS_H[self.tx_size as int] as int;
            let rows = self.visible_rows as int;
            if rows > 0 {
                assert((rows - 1) * w + self.visible_cols <= w * h) by (nonlinear_arith)
                    requires
                        1 <= rows <= h,
                        0 <= self.visible_cols <= w,
                ;
            }
            assert(0 * w == 0) by (nonlinear_arith);
        }
        let (sse, mse) = if self.predict_dc_level >= 1 && w != 64 && TXS_H[self.tx_size] != 64 {
            (self.dc_stats.sse, self.dc_stats.mse_q8)
        } else {
            av1_pixel_diff_dist(
                self.residual,
                w,
                0,
                0,
                self.visible_cols,
                self.visible_rows,
            )
        };
        (16 * normalise_energy(sse, self.bd) as i64, normalise_energy(mse as u64, self.bd) as u32)
    }

    /// What the residual predicts.
    pub fn predict_dc(&self) -> (r: DcVerdict)
        requires
            self.valid(),
        ensures
            r == self.dc_verdict(),
    {
        if self.predict_dc_level < 1 || TXS_W[self.tx_size] == 64 || TXS_H[self.tx_size] == 64 {
            return DcVerdict::Search;
        }
        let qstep: u64 = ac_quantizer_step(self.dequant[1], self.bd) as u64;
        assert(0 <= qstep * qstep <= 0x4000_0000) by (nonlinear_arith)
            requires
                0 <= qstep <= 0x8000,
        ;
        let var_threshold: u64 = 9 * (qstep * qstep) / 5;
        if normalise_energy(self.dc_stats.raw_var, self.bd) >= var_threshold {
            return DcVerdict::Search;
        }
        let mean: i64 = if self.dc_stats.per_px_mean < 0 {
            -self.dc_stats.per_px_mean
        } else {
            self.dc_stats.per_px_mean
        };
        let scale: i64 = self.dc_stats.coeff_scale;
        assert(0 <= mean * scale <= 0x1_0000_0000 * 0x1000_0000) by (nonlinear_arith)
            requires
                0 <= mean <= 0x1_0000_0000,
                0 <= scale <= 0x1000_0000,
        ;
        let dc_qstep: i64 = (self.dequant[0] / 8) as i64;
        if mean * scale < 4096 * dc_qstep {
            DcVerdict::Empty
        } else if self.predict_dc_level > 1 {
            DcVerdict::DcOnly
        } else {
            DcVerdict::Search
        }
    }

    fn masks(&self, dc_only: bool) -> (r: (u16, Option<usize>, u16))
        requires
            self.valid(),
            dc_only == (self.dc_verdict() == DcVerdict::DcOnly),
        ensures
            (r.0, r.1) == self.base_mask(),
            r.2 == self.stats_mask(),
    {
        let (mask, pinned) = match self.forced_uv_tx_type {
            Some(uv) => {
                let (m, t) = get_tx_mask_inter_uv(
                    self.tx_size,
                    uv,
                    self.lossless,
                    self.reduced_tx_set_used,
                    self.enable_flip_idtx,
                    self.use_inter_dct_only,
                );
                (m, Some(t))
            },
            None => get_tx_mask_inter(
                self.tx_size,
                self.lossless,
                self.reduced_tx_set_used,
                self.enable_flip_idtx,
                self.use_inter_dct_only,
            ),
        };
        let base: u16 = if dc_only { 1 } else { mask };
        let kept: u16 = match &self.type_stats {
            Some(st) => if pinned.is_none() && self.forced_uv_tx_type.is_none() {
                drop_rare_types(base, &st.0, st.1)
            } else {
                base
            },
            None => base,
        };
        (base, pinned, kept)
    }

    /// The types left for the model-based pruning, or `None` when it is not
    /// consulted.
    pub fn types_to_prune(&self) -> (r: Option<u16>)
        requires
            self.valid(),
        ensures
            r == if self.wants_prune_2d() {
                Some(self.stats_mask())
            } else {
                None
            },
    {
        let dc_only = self.predict_dc() == DcVerdict::DcOnly;
        let (_base, pinned, kept) = self.masks(dc_only);
        let keep_at_most: u32 = if self.prune_2d_txfm_mode >= 4 { 1 } else { 5 };
        if self.prune_2d && self.prune_2d_txfm_mode >= 1 && pinned.is_none() && count_types(kept)
            > keep_at_most {
            Some(kept)
        } else {
            None
        }
    }

    /// Fix the plan of the leaf's type search.
    pub fn make_plan(
        &self,
        pruned: Option<(u16, [usize; 16])>,
        coeff_opt_dist_threshold: u32,
        adaptive_txb_search_level: i32,
    ) -> (r: TypeSearchPlan)
        requires
            self.valid(),
            adaptive_txb_search_level < 64,
        ensures
            r == self.plan(
                pruned,
                coeff_opt_dist_threshold as int,
                adaptive_txb_search_level as int,
            ),
            r.valid(),
    {
        let dc_only = self.predict_dc() == DcVerdict::DcOnly;
        let (base, pinned, kept) = self.masks(dc_only);
        let (block_sse, mse_q8) = self.measure();
        let qstep: u32 = ac_quantizer_step(self.dequant[1], self.bd);
        let (use_tx_domain, final_px_dist) = pick_distortion_domain(
            self.use_transform_domain_distortion,
            mse_q8,
            self.tx_domain_dist_threshold,
            TXS_W[self.tx_size] == 64 || TXS_H[self.tx_size] == 64 || dc_only,
            pinned.is_some() || base == 0x0001,
        );
        let consulted = self.types_to_prune().is_some();
        let (allowed_tx_mask, txk_map) = match pruned {
            Some(p) => if consulted {
                p
            } else {
                (kept, IDENTITY_TXK_MAP)
            },
            None => (kept, IDENTITY_TXK_MAP),
        };
        TypeSearchPlan {
            tx_size: self.tx_size,
            rdmult: self.rdmult,
            allowed_tx_mask,
            txk_map,
            skip_trellis: is_trellis_off(false, mse_q8, coeff_opt_dist_threshold, qstep),
            use_tx_domain,
            final_px_dist,
            dc_only_blk: dc_only,
            block_sse,
            adaptive_txb_search_level,
            skip_tx_search: self.skip_tx_search,
        }
    }

    /// The result of a leaf that is predicted to be empty, with the contexts
    /// its neighbours give.
    pub fn empty_result(&self, txb_skip_ctx: usize, dc_sign_ctx: usize) -> (r: InterLeafResult)
        requires
            self.valid(),
        ensures
            r.is_empty_leaf(*self, txb_skip_ctx, dc_sign_ctx),
    {
        let (dist, _mse) = self.measure();
        let rate: i32 = self.predict_skip_zero_blk_rate;
        assert(TXS_W[self.tx_size as int] * TXS_H[self.tx_size as int] <= 4096)
            by (nonlinear_arith)
            requires
                TXS_W[self.tx_size as int] <= 64,
                TXS_H[self.tx_size as int] <= 64,
        ;
        let full: usize = TXS_W[self.tx_size] * TXS_H[self.tx_size];
        InterLeafResult {
            best_tx_type: 0,
            best_eob: 0,
            best_txb_ctx: 0,
            txb_skip_ctx,
            dc_sign_ctx,
            rate,
            dist,
            sse: dist,
            rd: rdcost(self.rdmult, rate, dist),
            skip_txfm: true,
            qcoeff: zeros(full),
            dqcoeff: zeros(full),
            evaluated_mask: 0,
        }
    }
}

/// The search settings of a leaf.
#[derive(Clone, Copy, Debug, PartialEq, Eq, Structural)]
pub struct LeafSearchSettings {
    pub coeff_opt_dist_threshold: u32,
    pub adaptive_txb_search_level: i32,
}

/// The transform-type search of one leaf, over the outcomes that the signal
/// path gives for each type (`outs[t]` for type `t`). `pruned` is what the
/// model-based pruning says where it is consulted, `final_px_dist` the
/// winner's sample-domain distortion where the plan asks for it, and the two
/// contexts those of an empty leaf.
pub fn search_tx_type_inter(
    inp: &InterLeafInputs<'_>,
    settings: &LeafSearchSettings,
    pruned: Option<(u16, [usize; 16])>,
    outs: &[TypeOutcome],
    final_px_dist: i64,
    txb_skip_ctx: usize,
    dc_sign_ctx: usize,
    ref_best_rd: i64,
) -> (r: Option<InterLeafResult>)
    requires
        inp.valid(),
        settings.adaptive_txb_search_level < 64,
        outs.len() >= TX_TYPES,
        forall|t: int| 0 <= t < TX_TYPES ==> (#[trigger] outs[t]).valid(),
    ensures
        inp.dc_verdict() == DcVerdict::Empty ==> (r matches Some(e) && e.is_empty_leaf(
            *inp,
            txb_skip_ctx,
            dc_sign_ctx,
        )),
        inp.dc_verdict() != DcVerdict::Empty ==> {
            let plan = inp.plan(
                pruned,
                settings.coeff_opt_dist_threshold as int,
                settings.adaptive_txb_search_level as int,
            );
            let m = SearchModel::after(plan, outs@, ref_best_rd as int, 16);
            match r {
                Some(win) => m.best matches Some(b) && win.reports(
                    b,
                    m.tried,
                    if plan.remeasures(b.eob) {
                        Some((final_px_dist as int, plan.block_sse as int))
                    } else {
                        None
                    },
                ),
                None => m.best is None,
            }
        },
{
    if inp.predict_dc() == DcVerdict::Empty {
        return Some(inp.empty_result(txb_skip_ctx, dc_sign_ctx));
    }
    let plan = inp.make_plan(
        pruned,
        settings.coeff_opt_dist_threshold,
        settings.adaptive_txb_search_level,
    );
    let (best, evaluated_mask) = search_types(&plan, outs, ref_best_rd);
    match best {
        None => None,
        Some(b) => Some(InterLeafResult::of_best(&plan, b, evaluated_mask, final_px_dist)),
    }
}

proof fn lemma_most_frequent(mask: u16, freq: [i32; 16], n: int)
    requires
        0 <= n <= 16,
        forall|t: int| 0 <= t < 16 ==> 0 <= #[trigger] freq[t],
    ensures
        ({
            let m = most_frequent(mask, freq, n);
            &&& m.1 >= 0 ==> 0 <= m.0 < n && flag_has(mask, m.0 as usize) && m.1 == freq[m.0]
            &&& forall|t: int| 0 <= t < n && #[trigger] flag_has(mask, t as usize) ==> freq[t] <= m.1
        }),
    decreases n,
{
    if n > 0 {
        lemma_most_frequent(mask, freq, n - 1);
        assert forall|t: int|
            0 <= t < n && #[trigger] flag_has(mask, t as usize) implies freq[t] <= most_frequent(
            mask,
            freq,
            n,
        ).1 by {
            if t < n - 1 {
                assert(freq[t] <= most_frequent(mask, freq, n - 1).1);
            }
        }
    }
}

proof fn lemma_drop_keeps(mask: u16, freq: [i32; 16], threshold: i32, n: int)
    requires
        0 <= n <= 16,
        0 <= most_frequent(mask, freq, 16).0 < 16,
        flag_has(mask, most_frequent(mask, freq, 16).0 as usize),
    ensures
        flag_has(drop_rare(mask, freq, threshold, n), most_frequent(mask, freq, 16).0 as usize),
    decreases n,
{
    if n > 0 {
        lemma_drop_keeps(mask, freq, threshold, n - 1);
        let kept = drop_rare(mask, freq, threshold, n - 1);
        let t = most_frequent(mask, freq, 16).0 as u16;
        let j = (n - 1) as u16;
        if j != t {
            assert((kept & !(1u16 << j)) & (1u16 << t) != 0) by (bit_vector)
                requires
                    kept & (1u16 << t) != 0,
                    j != t,
                    j < 16,
                    t < 16,
            ;
        }
    }
}

/// Dropping rare types keeps the most frequent of those allowed.
pub proof fn law_most_frequent_type_stays(mask: u16, freq: [i32; 16], threshold: i32)
    requires
        mask != 0,
        forall|t: int| 0 <= t < 16 ==> 0 <= #[trigger] freq[t],
    ensures
        ({
            let t = most_frequent(mask, freq, 16).0;
            &&& 0 <= t < 16
            &&& flag_has(mask, t as usize)
            &&& flag_has(drop_rare(mask, freq, threshold, 16), t as usize)
            &&& forall|u: int|
                0 <= u < 16 && #[trigger] flag_has(mask, u as usize) ==> freq[u] <= freq[t]
        }),
{
    lemma_most_frequent(mask, freq, 16);
    let k = lemma_some_bit(mask);
    assert(flag_has(mask, k as int as usize));
    assert(0 <= freq[k as int]);
    lemma_drop_keeps(mask, freq, threshold, 16);
}

/// A chroma block has exactly one type to try.
pub proof fn law_chroma_mask_holds_one_type(
    tx_size: int,
    uv_tx_type: usize,
    lossless: bool,
    reduced_tx_set_used: bool,
    enable_flip_idtx: bool,
    use_inter_dct_only: bool,
    t: usize,
)
    requires
        uv_tx_type < 16,
        t < 16,
    ensures
        ({
            let r = tx_mask_inter_uv(
                tx_size,
                uv_tx_type,
                lossless,
                reduced_tx_set_used,
                enable_flip_idtx,
                use_inter_dct_only,
            );
            flag_has(r.0, t) == (t == r.1)
        }),
{
    let chosen = tx_mask_inter_uv(
        tx_size,
        uv_tx_type,
        lossless,
        reduced_tx_set_used,
        enable_flip_idtx,
        use_inter_dct_only,
    ).1;
    lemma_single_bit(chosen, t);
}

/// The search of a leaf always yields a winner, unless a model outside prunes
/// its types.
pub proof fn law_inter_search_yields_a_winner(
    inp: InterLeafInputs<'_>,
    threshold: int,
    level: int,
    outs: Seq<TypeOutcome>,
    ref_best_rd: int,
)
    requires
        inp.valid(),
        inp.plan(None, threshold, level).valid(),
        inp.type_stats matches Some(st) ==> forall|t: int| 0 <= t < 16 ==> 0 <= #[trigger] st.0[t],
        outs.len() >= TX_TYPES,
        forall|t: int| 0 <= t < TX_TYPES ==> (#[trigger] outs[t]).valid(),
    ensures
        SearchModel::after(inp.plan(None, threshold, level), outs, ref_best_rd, 16).best is Some,
{
    let plan = inp.plan(None, threshold, level);
    law_tx_mask_inter_is_usable(
        inp.tx_size as int,
        inp.lossless,
        inp.reduced_tx_set_used,
        inp.enable_flip_idtx,
        inp.use_inter_dct_only,
    );
    let base = inp.base_mask().0;
    assert(base != 0) by {
        if let Some(uv) = inp.forced_uv_tx_type {
            let chosen = inp.base_mask().1.unwrap() as u16;
            assert(1u16 << chosen != 0) by (bit_vector)
                requires
                    chosen < 16,
            ;
        }
    }
    let mask = inp.stats_mask();
    let k: usize = if let Some(st) = inp.type_stats {
        law_most_frequent_type_stays(base, st.0, st.1);
        if mask == base {
            lemma_some_bit(base)
        } else {
            most_frequent(base, st.0, 16).0 as usize
        }
    } else {
        lemma_some_bit(base)
    };
    assert(flag_has(mask, k) && k < 16);
    assert(plan.txk_map[k as int] == k);
    SearchModel::law_search_yields_a_winner(plan, outs, ref_best_rd, 16, k as int);
}

/// The visible samples of a residual count, each once, and no others: of two
/// leaves that differ in one sample of the residual alone, the energy differs
/// by the difference of its squares where the sample is visible, and not at all
/// elsewhere.
pub proof fn law_visible_residual_counts(
    a: InterLeafInputs,
    b: InterLeafInputs,
    r: int,
    c: int,
)
    requires
        a.valid(),
        a.predict_dc_level == 0,
        b == (InterLeafInputs { residual: b.residual, ..a }),
        b.residual.len() == a.residual.len(),
        0 <= r < TXS_H[a.tx_size as int],
        0 <= c < TXS_W[a.tx_size as int],
        forall|k: int|
            0 <= k < a.residual.len() && k != r * TXS_W[a.tx_size as int] + c
                ==> #[trigger] a.residual[k] == b.residual[k],
    ensures
        ({
            let k = r * TXS_W[a.tx_size as int] + c;
            let (u, v) = (a.residual[k] as int, b.residual[k] as int);
            a.energy() - b.energy() == if r < a.visible_rows && c < a.visible_cols {
                u * u - v * v
            } else {
                0
            }
        }),
{
    let w = TXS_W[a.tx_size as int] as int;
    let hh = TXS_H[a.tx_size as int] as int;
    let (cols, rows) = (a.visible_cols as int, a.visible_rows as int);
    let (p, q) = (
        crate::tx_search::squares(a.residual@),
        crate::tx_search::squares(b.residual@),
    );
    assert forall|y: int, x: int|
        0 <= y < rows && 0 <= x < cols && (y != r || x != c) implies p(0 + y * w + x)
        == #[trigger] q(0 + y * w + x) by {
        assert(0 <= y * w + x && y * w + x < hh * w) by (nonlinear_arith)
            requires
                0 <= y < rows,
                rows <= hh,
                0 <= x < cols,
                cols <= w,
        ;
        assert(w * hh == hh * w) by (nonlinear_arith);
        assert(y * w + x != r * w + c) by (nonlinear_arith)
            requires
                y != r || x != c,
                0 <= x < w,
                0 <= c < w,
        ;
        assert(a.residual[y * w + x] == b.residual[y * w + x]);
    }
    if r < rows && c < cols {
        crate::samples::lemma_block_total_one(p, q, 0, w, cols, rows, r, c);
    } else {
        crate::samples::lemma_block_total_same(p, q, 0, w, 0, w, cols, rows);
    }
}

/// A winner whose plan asks for it, and which has coefficients, reports its
/// distortion in samples against the whole energy; every other one reports what
/// the search measured. Its rate and its cost are those of the search.
pub proof fn law_remeasured_winner_reports_samples(
    r: InterLeafResult,
    plan: TypeSearchPlan,
    b: BestModel,
    px: int,
)
    requires
        r.carries(
            b,
            if plan.remeasures(b.eob) {
                Some((px, plan.block_sse as int))
            } else {
                None
            },
        ),
    ensures
        plan.final_px_dist && b.eob > 0 ==> r.dist == px && r.sse == plan.block_sse,
        !plan.final_px_dist || b.eob == 0 ==> r.dist == b.dist && r.sse == b.sse,
        r.rate == b.rate,
        r.rd == b.rd,
        r.skip_txfm == (b.eob == 0),
        r.best_tx_type == b.tx_type,
        r.qcoeff@ == b.qcoeff,
        r.dqcoeff@ == b.dqcoeff,
{
}

/// A chroma block takes over the luma type wherever its own set has it, and is
/// never given one that its set lacks: the plain type stands in, as it does for
/// lossless blocks, for blocks with a side of 64 samples and where no luma type
/// is recorded.
pub proof fn law_chroma_takes_over_the_luma_type(
    tx_size: int,
    lossless: bool,
    reduced: bool,
    map: Seq<u8>,
    index: int,
)
    requires
        0 <= tx_size < 19,
    ensures
        ({
            let r = inherited_uv_type(tx_size, lossless, reduced, map, index);
            let flag = AV1_EXT_TX_USED_FLAG[ext_tx_set(tx_size, true, reduced) as int];
            let large = TXS_W[tx_size] == 64 || TXS_H[tx_size] == 64;
            &&& 0 <= r < 16
            &&& (r == 0 || (flag_has(flag, r as usize) && !lossless && !large && 0 <= index
                < map.len() && map[index] == r))
            &&& (!lossless && !large && 0 <= index < map.len() && map[index] < 16 && flag_has(
                flag,
                map[index] as usize,
            ) ==> r == map[index])
        }),
{
}

/// A type is dropped exactly where it is rarer than the threshold and not the
/// most frequent one, and that one is a type of the set with the highest
/// frequency.
pub proof fn law_rare_types_are_dropped(mask: u16, freq: [i32; 16], threshold: i32, t: usize)
    requires
        t < 16,
    ensures
        flag_has(drop_rare(mask, freq, threshold, 16), t) <==> flag_has(mask, t) && (freq[t as int]
            >= threshold || t == most_frequent(mask, freq, 16).0),
        flag_has(mask, t) && freq[t as int] >= 0 ==> {
            let (best, f) = most_frequent(mask, freq, 16);
            0 <= best < 16 && flag_has(mask, best as usize) && f == freq[best] && freq[t as int]
                <= f
        },
{
    lemma_rare_dropped(mask, freq, threshold, 16, t);
    lemma_most_frequent_is(mask, freq, 16, t);
}

proof fn lemma_rare_dropped(mask: u16, freq: [i32; 16], threshold: i32, n: int, t: usize)
    requires
        t < 16,
        0 <= n <= 16,
    ensures
        flag_has(drop_rare(mask, freq, threshold, n), t) <==> flag_has(mask, t) && (t >= n
            || freq[t as int] >= threshold || t == most_frequent(mask, freq, 16).0),
    decreases n,
{
    if n > 0 {
        lemma_rare_dropped(mask, freq, threshold, n - 1, t);
        let m = drop_rare(mask, freq, threshold, n - 1);
        let (k, j): (u16, u16) = ((n - 1) as u16, t as u16);
        assert(((m & !(1u16 << k)) & (1u16 << j) != 0) <==> (m & (1u16 << j) != 0 && j != k))
            by (bit_vector)
            requires
                k < 16,
                j < 16,
        ;
    }
}

proof fn lemma_most_frequent_is(mask: u16, freq: [i32; 16], n: int, t: usize)
    requires
        0 <= n <= 16,
    ensures
        ({
            let (best, f) = most_frequent(mask, freq, n);
            &&& f >= -1
            &&& (f >= 0 ==> 0 <= best < n && flag_has(mask, best as usize) && f == freq[best])
            &&& (t < n && flag_has(mask, t) ==> freq[t as int] <= f || freq[t as int] < 0)
        }),
    decreases n,
{
    if n > 0 {
        lemma_most_frequent_is(mask, freq, n - 1, t);
    }
}

impl<'a> InterLeafInputs<'a> {
    /// A leaf that is predicted to be empty stays so with less variance and a
    /// smaller mean. Only a leaf under 64 samples a side whose variance is below
    /// nine fifths of the squared step is predicted at all, and only at levels
    /// above 1 to have a DC coefficient alone.
    pub proof fn law_calmer_leaf_is_empty_too(self, calm: DcStats)
        requires
            calm.raw_var <= self.dc_stats.raw_var,
            abs_int(calm.per_px_mean as int) <= abs_int(self.dc_stats.per_px_mean as int),
            calm.coeff_scale == self.dc_stats.coeff_scale,
            0 <= calm.coeff_scale,
        ensures
            self.dc_verdict() == DcVerdict::Empty ==> (InterLeafInputs {
                dc_stats: calm,
                ..self
            }).dc_verdict() == DcVerdict::Empty,
            self.dc_verdict() != DcVerdict::Search ==> (InterLeafInputs {
                dc_stats: calm,
                ..self
            }).dc_verdict() != DcVerdict::Search || self.predict_dc_level == 1,
            self.dc_verdict() != DcVerdict::Search ==> self.predict_dc_level >= 1 && 5
                * normalised_sse(self.dc_stats.raw_var as int, self.bd as int) < 9 * (self.qstep()
                * self.qstep()),
            self.dc_verdict() != DcVerdict::Search ==> TXS_W[self.tx_size as int] != 64
                && TXS_H[self.tx_size as int] != 64,
            self.dc_verdict() == DcVerdict::DcOnly ==> self.predict_dc_level > 1,
    {
        let other = (InterLeafInputs { dc_stats: calm, ..self });
        let (a, b) = (calm.raw_var as int, self.dc_stats.raw_var as int);
        let n = if self.bd > 8 { 2 * (self.bd - 8) } else { 0 };
        if n > 0 {
            let (p, h) = (crate::arith::pow2i(n), crate::arith::pow2i(n - 1));
            crate::arith::lemma_pow2i_pos(n);
            assert((a + h) / p <= (b + h) / p) by (nonlinear_arith)
                requires
                    a <= b,
                    p >= 1,
            ;
        }
        assert(normalised_sse(a, self.bd as int) <= normalised_sse(b, self.bd as int));
        assert(other.qstep() == self.qstep());
        assert(other.predicts_dc() == self.predicts_dc());
        let (x, y, s) = (
            abs_int(calm.per_px_mean as int),
            abs_int(self.dc_stats.per_px_mean as int),
            calm.coeff_scale as int,
        );
        assert(x * s <= y * s) by (nonlinear_arith)
            requires
                0 <= x <= y,
                0 <= s,
        ;
    }
}

} // verus!
