//! Transform search: the transform types a block may use, the residual
//! statistics the search goes by, and the decisions of the type and size
//! searches.

use vstd::prelude::*;

use crate::arith::pow2i;
use crate::samples::{block_total, row_total};
use crate::type_search::{
    ac_qstep, ac_quantizer_step, distortion_domain, is_trellis_off, normalise_energy,
    normalised_sse, pick_distortion_domain, search_types, trellis_off, BestModel, SearchModel,
    TypeBest, TypeOutcome, TypeSearchPlan,
};
pub use crate::tx_size_search::{
    choose_tx_size_type_from_rd_intra,
    get_search_init_depth_intra_speed0,
    intra_model_rd_y,
    pick_uniform_tx_size_type_yrd_intra,
    txfm_rd_in_plane_intra,
    uniform_txfm_yrd_intra,
    RdStats,
    TxSizeChoice,
    TxbWinner,
};

verus! {

/// Number of transform types.
pub const TX_TYPES: usize = 16;

/// Transform types of each extended set; bit `t` is set for type `t`.
pub const AV1_EXT_TX_USED_FLAG: [u16; 6] = [0x0001, 0x0201, 0x020F, 0x0E0F, 0x0FFF, 0xFFFF];

/// The reduced set of each intra direction.
pub const AV1_REDUCED_INTRA_TX_USED_FLAG: [u16; 13] = [
    0x080F, 0x040F, 0x080F, 0x020F, 0x080F, 0x040F, 0x080F, 0x080F, 0x040F, 0x080F, 0x040F, 0x080F,
    0x0C0E,
];

/// The set of each intra direction derived from residual statistics.
pub const AV1_DERIVED_INTRA_TX_USED_FLAG: [u16; 13] = [
    0x0209, 0x0403, 0x0805, 0x020F, 0x0009, 0x0009, 0x0009, 0x0805, 0x0403, 0x0205, 0x0403, 0x0805,
    0x0209,
];

/// The intra direction that a filter-intra mode counts as.
pub const FIMODE_TO_INTRADIR: [usize; 5] = [0, 1, 2, 6, 0];

/// The types made of DCT and ADST alone.
pub const DCT_ADST_TX_MASK: u16 = 0x000F;

/// The square transform size whose side is the longer side of each size.
pub const TXSIZE_SQR_UP_MAP: [usize; 19] = [
    0, 1, 2, 3, 4, 1, 1, 2, 2, 3, 3, 4, 4, 2, 2, 3, 3, 4, 4,
];

/// The square transform size whose side is the shorter side of each size.
pub const TXSIZE_SQR_MAP: [usize; 19] = [
    0, 1, 2, 3, 4, 0, 0, 1, 1, 2, 2, 3, 3, 0, 0, 1, 1, 2, 2,
];

/// The extended set that the reduced intra sets replace.
pub const EXT_TX_SET_DTT4_IDTX_1DDCT: usize = 3;

/// Samples of each transform size.
pub const TX_SIZE_2D_TBL: [i64; 19] = [
    16, 64, 256, 1024, 4096, 32, 32, 128, 128, 512, 512, 2048, 2048, 64, 64, 256, 256, 1024, 1024,
];

/// Transform width in samples.
pub const TXS_W: [usize; 19] = [
    4, 8, 16, 32, 64, 4, 8, 8, 16, 16, 32, 32, 64, 4, 16, 8, 32, 16, 64,
];

/// Transform height in samples.
pub const TXS_H: [usize; 19] = [
    4, 8, 16, 32, 64, 8, 4, 16, 8, 32, 16, 64, 32, 16, 4, 32, 8, 64, 16,
];

/// The dimension tables agree with each other.
pub proof fn law_tx_dimensions(tx_size: int)
    requires
        0 <= tx_size < 19,
    ensures
        TX_SIZE_2D_TBL[tx_size] == TXS_W[tx_size] * TXS_H[tx_size],
        ({
            let up = TXSIZE_SQR_UP_MAP[tx_size] as int;
            let down = TXSIZE_SQR_MAP[tx_size] as int;
            &&& TXS_W[up] == TXS_H[up]
            &&& TXS_W[down] == TXS_H[down]
            &&& TXS_W[up] == TXS_W[tx_size] || TXS_W[up] == TXS_H[tx_size]
            &&& TXS_W[down] == TXS_W[tx_size] || TXS_W[down] == TXS_H[tx_size]
            &&& TXS_W[down] <= TXS_W[tx_size] <= TXS_W[up]
            &&& TXS_W[down] <= TXS_H[tx_size] <= TXS_W[up]
        }),
{
    let w = TXS_W[tx_size] as int;
    let h = TXS_H[tx_size] as int;
    assert(w == 4 || w == 8 || w == 16 || w == 32 || w == 64);
    assert((w == 4 ==> w * h == 4 * h) && (w == 8 ==> w * h == 8 * h) && (w == 16 ==> w * h == 16
        * h) && (w == 32 ==> w * h == 32 * h) && (w == 64 ==> w * h == 64 * h))
        by (nonlinear_arith);
}

/// The extended set of a transform size: none above 32x32, DCT (and identity
/// for inter blocks) at 32x32, then by the shorter side.
pub open spec fn ext_tx_set(tx_size: int, is_inter: bool, reduced: bool) -> usize {
    if TXSIZE_SQR_UP_MAP[tx_size] > 3 {
        0
    } else if TXSIZE_SQR_UP_MAP[tx_size] == 3 {
        if is_inter {
            1
        } else {
            0
        }
    } else if reduced {
        if is_inter {
            1
        } else {
            2
        }
    } else if TXSIZE_SQR_MAP[tx_size] == 2 {
        if is_inter {
            4
        } else {
            2
        }
    } else if is_inter {
        5
    } else {
        3
    }
}

/// The extended transform set that a transform size uses.
pub fn ext_tx_set_type(tx_size: usize, is_inter: bool, reduced_tx_set_used: bool) -> (r: usize)
    requires
        tx_size < 19,
    ensures
        r == ext_tx_set(tx_size as int, is_inter, reduced_tx_set_used),
        r < 6,
{
    if TXSIZE_SQR_UP_MAP[tx_size] > 3 {
        0
    } else if TXSIZE_SQR_UP_MAP[tx_size] == 3 {
        if is_inter {
            1
        } else {
            0
        }
    } else if reduced_tx_set_used {
        if is_inter {
            1
        } else {
            2
        }
    } else if TXSIZE_SQR_MAP[tx_size] == 2 {
        if is_inter {
            4
        } else {
            2
        }
    } else if is_inter {
        5
    } else {
        3
    }
}

/// The speed features and tool settings that bear on the allowed types.
#[derive(Clone, Copy, Debug)]
pub struct TxMaskParams {
    /// 0: full set, 1: reduced set, 2: reduced and derived sets together.
    pub use_reduced_intra_txset: u8,
    pub use_derived_intra_tx_type_set: bool,
    pub enable_flip_idtx: bool,
    pub use_intra_dct_only: bool,
}

impl TxMaskParams {
    /// The all-intra settings at speed 0.
    pub fn speed0_allintra() -> (r: Self)
        ensures
            r.use_reduced_intra_txset == 1,
            !r.use_derived_intra_tx_type_set,
            r.enable_flip_idtx,
            !r.use_intra_dct_only,
    {
        TxMaskParams {
            use_reduced_intra_txset: 1,
            use_derived_intra_tx_type_set: false,
            enable_flip_idtx: true,
            use_intra_dct_only: false,
        }
    }
}

/// The intra direction of a block.
pub open spec fn intra_direction(mode: int, use_filter_intra: bool, filter_mode: int) -> int {
    if use_filter_intra {
        FIMODE_TO_INTRADIR[filter_mode] as int
    } else {
        mode
    }
}

/// The types of an intra block's set, before any tool is switched off.
pub open spec fn intra_set_flag(set: int, direction: int, p: TxMaskParams) -> u16 {
    let base = if p.use_reduced_intra_txset != 0 && set == EXT_TX_SET_DTT4_IDTX_1DDCT {
        AV1_REDUCED_INTRA_TX_USED_FLAG[direction]
    } else {
        AV1_EXT_TX_USED_FLAG[set]
    };
    if p.use_reduced_intra_txset == 2 {
        base & AV1_DERIVED_INTRA_TX_USED_FLAG[direction]
    } else {
        base
    }
}

/// The types left once flipped and identity types are switched off.
pub open spec fn without_flips(flag: u16, enable_flip_idtx: bool) -> u16 {
    if enable_flip_idtx {
        flag
    } else {
        flag & DCT_ADST_TX_MASK
    }
}

/// The types a luma intra block may use and the type it is pinned to, if any.
/// An empty set falls back to DCT.
pub open spec fn tx_mask_intra(
    tx_size: int,
    direction: int,
    lossless: bool,
    reduced_tx_set_used: bool,
    p: TxMaskParams,
) -> (u16, Option<usize>) {
    let set = ext_tx_set(tx_size, false, reduced_tx_set_used) as int;
    let flag = intra_set_flag(set, direction, p);
    let dct_only = lossless || TXSIZE_SQR_UP_MAP[tx_size] > 3 || flag == 1 || p.use_intra_dct_only;
    let kept = without_flips(flag, p.enable_flip_idtx);
    let mask = if dct_only {
        1 & kept
    } else if p.use_derived_intra_tx_type_set {
        AV1_DERIVED_INTRA_TX_USED_FLAG[direction] & kept
    } else {
        kept
    };
    if mask == 0 {
        (1, Some(0))
    } else if dct_only {
        (mask, Some(0))
    } else {
        (mask, None)
    }
}

/// The bitmask of transform types to search for a luma intra block, and the
/// one type it is pinned to.
pub fn get_tx_mask_intra(
    tx_size: usize,
    mode: usize,
    use_filter_intra: bool,
    filter_intra_mode: usize,
    lossless: bool,
    reduced_tx_set_used: bool,
    p: &TxMaskParams,
) -> (r: (u16, Option<usize>))
    requires
        tx_size < 19,
        use_filter_intra ==> filter_intra_mode < 5,
        !use_filter_intra ==> mode < 13,
    ensures
        r == tx_mask_intra(
            tx_size as int,
            intra_direction(mode as int, use_filter_intra, filter_intra_mode as int),
            lossless,
            reduced_tx_set_used,
            *p,
        ),
{
    let set: usize = ext_tx_set_type(tx_size, false, reduced_tx_set_used);
    let dir: usize = if use_filter_intra { FIMODE_TO_INTRADIR[filter_intra_mode] } else { mode };
    let mut flag: u16 = if p.use_reduced_intra_txset != 0 && set == EXT_TX_SET_DTT4_IDTX_1DDCT {
        AV1_REDUCED_INTRA_TX_USED_FLAG[dir]
    } else {
        AV1_EXT_TX_USED_FLAG[set]
    };
    if p.use_reduced_intra_txset == 2 {
        flag = flag & AV1_DERIVED_INTRA_TX_USED_FLAG[dir];
    }
    let dct_only = lossless || TXSIZE_SQR_UP_MAP[tx_size] > 3 || flag == 0x0001
        || p.use_intra_dct_only;
    if !p.enable_flip_idtx {
        flag = flag & DCT_ADST_TX_MASK;
    }
    let mask: u16 = if dct_only {
        1 & flag
    } else if p.use_derived_intra_tx_type_set {
        AV1_DERIVED_INTRA_TX_USED_FLAG[dir] & flag
    } else {
        flag
    };
    if mask == 0 {
        (1, Some(0))
    } else if dct_only {
        (mask, Some(0))
    } else {
        (mask, None)
    }
}

/// A luma intra block always has a type to try, and a pinned block has that
/// type alone.
pub proof fn law_tx_mask_intra_is_usable(
    tx_size: int,
    direction: int,
    lossless: bool,
    reduced_tx_set_used: bool,
    p: TxMaskParams,
)
    ensures
        ({
            let r = tx_mask_intra(tx_size, direction, lossless, reduced_tx_set_used, p);
            &&& r.0 != 0
            &&& match r.1 {
                Some(t) => t == 0 && r.0 == 1,
                None => true,
            }
        }),
{
    let set = ext_tx_set(tx_size, false, reduced_tx_set_used) as int;
    let kept = without_flips(intra_set_flag(set, direction, p), p.enable_flip_idtx);
    assert(1 & kept == 0 || 1 & kept == 1) by (bit_vector);
}

/// The transform type that goes with each intra mode.
pub const INTRA_MODE_TO_TX_TYPE: [usize; 13] = [0, 1, 2, 0, 3, 1, 2, 2, 1, 3, 1, 2, 3];

/// The chroma mode that stands for predicting chroma from luma.
pub const UV_CFL_PRED: usize = 13;

/// The intra mode that a chroma mode counts as.
pub open spec fn uv_as_intra_mode(uv_mode: int) -> int {
    if uv_mode == UV_CFL_PRED {
        0
    } else {
        uv_mode
    }
}

/// Type `t` belongs to the set with these types.
pub open spec fn flag_has(flag: u16, t: usize) -> bool {
    flag & (1u16 << (t as u16)) != 0
}

/// The transform type of an intra chroma block: that of its mode if the
/// extended set has it, DCT otherwise and for lossless or 64-sample blocks.
pub open spec fn uv_intra_type(
    uv_mode: int,
    lossless: bool,
    tx_size: int,
    reduced_tx_set_used: bool,
) -> usize {
    let t = INTRA_MODE_TO_TX_TYPE[uv_as_intra_mode(uv_mode)];
    if lossless || TXSIZE_SQR_UP_MAP[tx_size] > 3 {
        0
    } else if flag_has(
        AV1_EXT_TX_USED_FLAG[ext_tx_set(tx_size, false, reduced_tx_set_used) as int],
        t,
    ) {
        t
    } else {
        0
    }
}

/// The transform type of an intra chroma block.
pub fn uv_intra_tx_type(
    uv_mode: usize,
    lossless: bool,
    tx_size: usize,
    reduced_tx_set_used: bool,
) -> (r: usize)
    requires
        tx_size < 19,
        uv_mode <= UV_CFL_PRED,
    ensures
        r == uv_intra_type(uv_mode as int, lossless, tx_size as int, reduced_tx_set_used),
        r < 4,
{
    if lossless || TXSIZE_SQR_UP_MAP[tx_size] > 3 {
        return 0;
    }
    let mode: usize = if uv_mode == UV_CFL_PRED { 0 } else { uv_mode };
    let tx_type: usize = INTRA_MODE_TO_TX_TYPE[mode];
    let set: usize = ext_tx_set_type(tx_size, false, reduced_tx_set_used);
    if AV1_EXT_TX_USED_FLAG[set] & (1u16 << (tx_type as u16)) == 0 {
        0
    } else {
        tx_type
    }
}

/// The mask and the type of an intra chroma block: its own type, or DCT where
/// only DCT may be used; a type outside the reduced set is used all the same.
pub open spec fn tx_mask_uv_intra(
    uv_type: usize,
    tx_size: int,
    direction: int,
    lossless: bool,
    reduced_tx_set_used: bool,
    p: TxMaskParams,
) -> (u16, usize) {
    let set = ext_tx_set(tx_size, false, reduced_tx_set_used) as int;
    let flag = intra_set_flag(set, direction, p);
    let dct_only = lossless || TXSIZE_SQR_UP_MAP[tx_size] > 3 || flag == 1 || p.use_intra_dct_only;
    let wanted: usize = if dct_only {
        0
    } else {
        uv_type
    };
    let chosen: usize = if flag_has(without_flips(flag, p.enable_flip_idtx), wanted) {
        wanted
    } else {
        uv_type
    };
    (1u16 << (chosen as u16), chosen)
}

/// The transform-type mask of an intra chroma block; it always holds exactly
/// one type, which is returned with it.
pub fn get_tx_mask_uv_intra(
    tx_size: usize,
    uv_mode: usize,
    luma_mode: usize,
    luma_use_filter_intra: bool,
    luma_filter_intra_mode: usize,
    lossless: bool,
    reduced_tx_set_used: bool,
    p: &TxMaskParams,
) -> (r: (u16, usize))
    requires
        tx_size < 19,
        uv_mode <= UV_CFL_PRED,
        luma_use_filter_intra ==> luma_filter_intra_mode < 5,
        !luma_use_filter_intra ==> luma_mode < 13,
    ensures
        r == tx_mask_uv_intra(
            uv_intra_type(uv_mode as int, lossless, tx_size as int, reduced_tx_set_used),
            tx_size as int,
            intra_direction(
                luma_mode as int,
                luma_use_filter_intra,
                luma_filter_intra_mode as int,
            ),
            lossless,
            reduced_tx_set_used,
            *p,
        ),
        r.1 < 16,
{
    let uv_type: usize = uv_intra_tx_type(uv_mode, lossless, tx_size, reduced_tx_set_used);
    let set: usize = ext_tx_set_type(tx_size, false, reduced_tx_set_used);
    let dir: usize = if luma_use_filter_intra {
        FIMODE_TO_INTRADIR[luma_filter_intra_mode]
    } else {
        luma_mode
    };
    let mut flag: u16 = if p.use_reduced_intra_txset != 0 && set == EXT_TX_SET_DTT4_IDTX_1DDCT {
        AV1_REDUCED_INTRA_TX_USED_FLAG[dir]
    } else {
        AV1_EXT_TX_USED_FLAG[set]
    };
    if p.use_reduced_intra_txset == 2 {
        flag = flag & AV1_DERIVED_INTRA_TX_USED_FLAG[dir];
    }
    let mut txk_allowed: usize = uv_type;
    if lossless || TXSIZE_SQR_UP_MAP[tx_size] > 3 || flag == 0x0001 || p.use_intra_dct_only {
        txk_allowed = 0;
    }
    if !p.enable_flip_idtx {
        flag = flag & DCT_ADST_TX_MASK;
    }
    let bit: u16 = 1u16 << (txk_allowed as u16);
    assert((bit & flag == 0) == (flag & bit == 0)) by (bit_vector);
    if bit & flag == 0 {
        (1u16 << (uv_type as u16), uv_type)
    } else {
        (bit, txk_allowed)
    }
}

/// Length of a transform block's side that is visible: all of it when the
/// block does not overhang, else what is left of the plane block.
pub open spec fn visible_side(side: int, plane: int, blk: int, edge: int, ss: int) -> int {
    if edge >= 0 {
        side
    } else {
        let left = edge / (if ss == 0 {
            8int
        } else {
            16
        }) + plane - 4 * blk;
        if left < 0 {
            0
        } else if left > side {
            side
        } else {
            left
        }
    }
}

fn visible_len(side: usize, plane: usize, blk: usize, edge: i32, ss: u32) -> (r: usize)
    requires
        side <= 0x1000_0000,
        plane <= 0x1000_0000,
        blk <= 0x400_0000,
        ss <= 1,
    ensures
        r == visible_side(side as int, plane as int, blk as int, edge as int, ss as int),
        r <= side,
{
    if edge >= 0 {
        return side;
    }
    assert(edge >> 3u32 == edge / 8 && edge >> 4u32 == edge / 16) by (bit_vector);
    let cut: i32 = edge >> (3 + ss);
    let left: i32 = cut + plane as i32 - 4 * blk as i32;
    if left < 0 {
        0
    } else if left > side as i32 {
        side
    } else {
        left as usize
    }
}

/// The visible width and height of a transform block. The distances to the
/// frame edge are in eighths of a sample and negative where the block
/// overhangs.
pub fn get_txb_visible_dimensions(
    plane_bsize_w: usize,
    plane_bsize_h: usize,
    tx_w: usize,
    tx_h: usize,
    blk_row: usize,
    blk_col: usize,
    mb_to_right_edge: i32,
    mb_to_bottom_edge: i32,
    subsampling_x: u32,
    subsampling_y: u32,
) -> (r: (usize, usize))
    requires
        plane_bsize_w <= 0x1000_0000,
        plane_bsize_h <= 0x1000_0000,
        tx_w <= 0x1000_0000,
        tx_h <= 0x1000_0000,
        blk_row <= 0x400_0000,
        blk_col <= 0x400_0000,
        subsampling_x <= 1,
        subsampling_y <= 1,
    ensures
        r.0 == visible_side(
            tx_w as int,
            plane_bsize_w as int,
            blk_col as int,
            mb_to_right_edge as int,
            subsampling_x as int,
        ),
        r.1 == visible_side(
            tx_h as int,
            plane_bsize_h as int,
            blk_row as int,
            mb_to_bottom_edge as int,
            subsampling_y as int,
        ),
{
    (
        visible_len(tx_w, plane_bsize_w, blk_col, mb_to_right_edge, subsampling_x),
        visible_len(tx_h, plane_bsize_h, blk_row, mb_to_bottom_edge, subsampling_y),
    )
}

/// The squares of the residual samples.
pub open spec fn squares(diff: Seq<i16>) -> spec_fn(int) -> int {
    |i: int| diff[i] * diff[i]
}

/// Sum of squares over the visible part of the transform block at
/// `(blk_row, blk_col)`, in units of four samples.
pub open spec fn residual_sse(
    diff: Seq<i16>,
    stride: int,
    blk_row: int,
    blk_col: int,
    cols: int,
    rows: int,
) -> int {
    block_total(squares(diff), 4 * (blk_row * stride + blk_col), stride, cols, rows)
}

/// The mean squared error in 1/256 units, as a 32-bit pattern; all ones when
/// nothing is visible.
pub open spec fn residual_mse_q8(sse: int, cols: int, rows: int) -> int {
    if cols > 0 && rows > 0 {
        (256 * sse / (cols * rows)) % 0x1_0000_0000
    } else {
        0xffff_ffff
    }
}

fn row_sse(diff: &[i16], off: usize, n: usize) -> (r: u64)
    requires
        off + n <= diff.len(),
        n <= 64,
    ensures
        r == row_total(squares(diff@), off as int, n as int),
        r <= 0x4000_0000 * n,
{
    let mut sum: u64 = 0;
    for c in 0..n
        invariant
            off + n <= diff.len(),
            n <= 64,
            sum == row_total(squares(diff@), off as int, c as int),
            sum <= 0x4000_0000 * c,
    {
        let d: i64 = diff[off + c] as i64;
        assert(0 <= d * d <= 0x4000_0000) by (nonlinear_arith)
            requires
                -0x8000 <= d <= 0x7fff,
        ;
        sum = sum + (d * d) as u64;
    }
    sum
}

/// Sum of squares of the visible residual of a transform block, and the mean
/// squared error in 1/256 units. `diff` is the plane's residual with
/// `diff_stride` samples a row.
pub fn av1_pixel_diff_dist(
    diff: &[i16],
    diff_stride: usize,
    blk_row: usize,
    blk_col: usize,
    visible_cols: usize,
    visible_rows: usize,
) -> (r: (u64, u32))
    requires
        visible_cols <= 64,
        visible_rows <= 64,
        4 * (blk_row * diff_stride + blk_col) <= diff.len(),
        visible_rows > 0 ==> 4 * (blk_row * diff_stride + blk_col) + (visible_rows - 1)
            * diff_stride + visible_cols <= diff.len(),
    ensures
        r.0 == residual_sse(
            diff@,
            diff_stride as int,
            blk_row as int,
            blk_col as int,
            visible_cols as int,
            visible_rows as int,
        ),
        r.1 == residual_mse_q8(r.0 as int, visible_cols as int, visible_rows as int),
        r.0 <= 0x400_0000_0000,
{
    let mut sse: u64 = 0;
    proof {
        assert(0 <= blk_row * diff_stride) by (nonlinear_arith);
    }
    let off: usize = 4 * (blk_row * diff_stride + blk_col);
    for i in 0..visible_rows
        invariant
            visible_cols <= 64,
            visible_rows <= 64,
            off == 4 * (blk_row * diff_stride + blk_col),
            visible_rows > 0 ==> off + (visible_rows - 1) * diff_stride + visible_cols
                <= diff.len(),
            sse == block_total(
                squares(diff@),
                off as int,
                diff_stride as int,
                visible_cols as int,
                i as int,
            ),
            sse <= 0x10_0000_0000 * i,
    {
        assert(0 <= i * diff_stride <= (visible_rows - 1) * diff_stride) by (nonlinear_arith)
            requires
                0 <= i <= visible_rows - 1,
                diff_stride >= 0,
        ;
        sse = sse + row_sse(diff, off + i * diff_stride, visible_cols);
    }
    if visible_cols > 0 && visible_rows > 0 {
        assert(1 <= visible_cols * visible_rows <= 4096) by (nonlinear_arith)
            requires
                1 <= visible_cols <= 64,
                1 <= visible_rows <= 64,
        ;
        let mse: u64 = (256 * sse) / (visible_cols as u64 * visible_rows as u64);
        (sse, (mse % 0x1_0000_0000) as u32)
    } else {
        (sse, u32::MAX)
    }
}

/// Sum of squared differences of `n` samples, from `s` on in `src` and from
/// `r` on in `recon`.
pub open spec fn recon_row_sse(src: Seq<u16>, s: int, recon: Seq<u16>, r: int, n: int) -> int
    decreases n,
{
    if n <= 0 {
        0
    } else {
        let d = src[s + n - 1] - recon[r + n - 1];
        recon_row_sse(src, s, recon, r, n - 1) + d * d
    }
}

/// Sum of squared differences over `h` rows of `w` samples; the rows of
/// `recon` follow each other without a gap.
pub open spec fn recon_sse(
    src: Seq<u16>,
    off: int,
    stride: int,
    recon: Seq<u16>,
    w: int,
    h: int,
) -> int
    decreases h,
{
    if h <= 0 {
        0
    } else {
        recon_sse(src, off, stride, recon, w, h - 1) + recon_row_sse(
            src,
            off + (h - 1) * stride,
            recon,
            (h - 1) * w,
            w,
        )
    }
}

/// A sum of squares at bit depth `bd`, rounded to the scale of eight bits.
pub open spec fn sse_at_8_bits(sse: int, bd: int) -> int {
    round_shift(sse, 2 * (bd - 8))
}

/// The samples fit the bit depth.
pub open spec fn fit_depth(s: Seq<u16>, bd: int) -> bool {
    forall|k: int| 0 <= k < s.len() ==> #[trigger] s[k] < pow2i(bd)
}

fn row_recon_sse(src: &[u16], s: usize, recon: &[u16], r: usize, n: usize) -> (sse: i64)
    requires
        n <= 64,
        s + n <= src.len(),
        r + n <= recon.len(),
        fit_depth(src@, 12),
        fit_depth(recon@, 12),
    ensures
        sse == recon_row_sse(src@, s as int, recon@, r as int, n as int),
        0 <= sse <= 0x100_0000 * n,
{
    let mut sse: i64 = 0;
    for c in 0..n
        invariant
            n <= 64,
            s + n <= src.len(),
            r + n <= recon.len(),
            fit_depth(src@, 12),
            fit_depth(recon@, 12),
            sse == recon_row_sse(src@, s as int, recon@, r as int, c as int),
            0 <= sse <= 0x100_0000 * c,
    {
        assert(pow2i(12) == 0x1000) by {
            reveal_with_fuel(pow2i, 13);
        }
        let d: i64 = src[s + c] as i64 - recon[r + c] as i64;
        assert(src@[s + c] < pow2i(12) && recon@[r + c] < pow2i(12));
        assert(0 <= d * d <= 0x100_0000) by (nonlinear_arith)
            requires
                -0x1000 < d < 0x1000,
        ;
        sse = sse + d * d;
    }
    sse
}

/// Distortion of a transform block that lies inside the frame: sixteen times
/// the squared error of its reconstruction against the source, on the scale of
/// eight bits. `recon` holds the block without gaps.
pub fn dist_block_px_domain_interior(
    recon: &[u16],
    tx_size: usize,
    src: &[u16],
    src_off: usize,
    src_stride: usize,
    bd: u8,
) -> (r: i64)
    requires
        tx_size < 19,
        bd == 8 || bd == 10 || bd == 12,
        recon.len() >= TXS_W[tx_size as int] * TXS_H[tx_size as int],
        src_off + (TXS_H[tx_size as int] - 1) * src_stride + TXS_W[tx_size as int] <= src.len(),
        fit_depth(src@, bd as int),
        fit_depth(recon@, bd as int),
    ensures
        r == 16 * sse_at_8_bits(
            recon_sse(
                src@,
                src_off as int,
                src_stride as int,
                recon@,
                TXS_W[tx_size as int] as int,
                TXS_H[tx_size as int] as int,
            ),
            bd as int,
        ),
        0 <= r <= 0x100_0000_0000,
{
    let w: usize = TXS_W[tx_size];
    let h: usize = TXS_H[tx_size];
    let mut sse: i64 = 0;
    proof {
        crate::arith::lemma_pow2i_values();
        crate::arith::lemma_pow2i_mono(bd as int, 12);
        assert forall|k: int| 0 <= k < src@.len() implies #[trigger] src@[k] < pow2i(12) by {}
        assert forall|k: int| 0 <= k < recon@.len() implies #[trigger] recon@[k] < pow2i(12) by {}
    }
    for i in 0..h
        invariant
            w <= 64,
            h <= 64,
            recon.len() >= w * h,
            src_off + (h - 1) * src_stride + w <= src.len(),
            fit_depth(src@, 12),
            fit_depth(recon@, 12),
            sse == recon_sse(
                src@,
                src_off as int,
                src_stride as int,
                recon@,
                w as int,
                i as int,
            ),
            0 <= sse <= 0x4000_0000 * i,
    {
        assert(0 <= i * src_stride <= (h - 1) * src_stride) by (nonlinear_arith)
            requires
                0 <= i <= h - 1,
                src_stride >= 0,
        ;
        assert(0 <= i * w && i * w + w <= w * h) by (nonlinear_arith)
            requires
                0 <= i <= h - 1,
                w >= 0,
        ;
        sse = sse + row_recon_sse(src, src_off + i * src_stride, recon, i * w, w);
    }
    if bd == 8 {
        16 * sse
    } else if bd == 10 {
        16 * crate::arith::shr_i64(sse + 8, 4)
    } else {
        16 * crate::arith::shr_i64(sse + 128, 8)
    }
}

/// A block that is reconstructed as it was has no distortion.
pub proof fn law_exact_reconstruction_has_no_distortion(
    src: Seq<u16>,
    off: int,
    stride: int,
    recon: Seq<u16>,
    w: int,
    h: int,
    bd: int,
)
    requires
        bd == 8 || bd == 10 || bd == 12,
        forall|y: int, x: int|
            0 <= y < h && 0 <= x < w ==> src[off + y * stride + x] == #[trigger] recon[y * w + x],
    ensures
        sse_at_8_bits(recon_sse(src, off, stride, recon, w, h), bd) == 0,
{
    lemma_exact_recon(src, off, stride, recon, w, h);
    crate::arith::lemma_pow2i_values();
}

proof fn lemma_exact_recon(
    src: Seq<u16>,
    off: int,
    stride: int,
    recon: Seq<u16>,
    w: int,
    h: int,
)
    requires
        forall|y: int, x: int|
            0 <= y < h && 0 <= x < w ==> src[off + y * stride + x] == #[trigger] recon[y * w + x],
    ensures
        recon_sse(src, off, stride, recon, w, h) == 0,
    decreases h,
{
    if h > 0 {
        lemma_exact_recon(src, off, stride, recon, w, h - 1);
        let y = h - 1;
        assert forall|x: int| 0 <= x < w implies src[off + y * stride + x] == #[trigger] recon[y * w
            + x] by {}
        lemma_exact_row(src, off + y * stride, recon, y * w, w);
    }
}

proof fn lemma_exact_row(src: Seq<u16>, s: int, recon: Seq<u16>, r: int, n: int)
    requires
        forall|x: int| 0 <= x < n ==> src[s + x] == #[trigger] recon[r + x],
    ensures
        recon_row_sse(src, s, recon, r, n) == 0,
    decreases n,
{
    if n > 0 {
        lemma_exact_row(src, s, recon, r, n - 1);
        let d = src[s + (n - 1)] - recon[r + (n - 1)];
        assert(d * d == 0) by (nonlinear_arith)
            requires
                d == 0,
        ;
    }
}

/// `v / 2^n` rounded to nearest, halves up.
pub open spec fn round_shift(v: int, n: int) -> int {
    if n <= 0 {
        v
    } else {
        (v + pow2i(n - 1)) / pow2i(n)
    }
}

/// The trellis multiplier: `rdmult * (8 - sharpness) * mult`, scaled up by
/// `4^(bd - 8)`, over 32 or 128.
pub open spec fn trellis_value(
    rdmult: int,
    sharpness: int,
    mult: int,
    bd: int,
    rshift: int,
) -> int {
    round_shift(rdmult * (8 - sharpness) * (mult * pow2i(2 * (bd - 8))), rshift)
}

/// A sharpness and a depth for which the trellis multiplier is in 64 bits.
pub open spec fn trellis_args(sharpness: int, bd: int) -> bool {
    -4096 <= sharpness <= 4096 && 8 <= bd <= 12
}

/// The trellis multiplier of a plane with factor `mult`.
pub fn trellis_rdmult(rdmult: i32, sharpness: i32, mult: i64, bd: u8, iq_tuning: bool) -> (r: i64)
    requires
        trellis_args(sharpness as int, bd as int),
        0 <= mult <= 20,
    ensures
        r == trellis_value(
            rdmult as int,
            sharpness as int,
            mult as int,
            bd as int,
            if iq_tuning {
                7
            } else {
                5
            },
        ),
{
    let depth_scale: i64 = if bd == 8 {
        1
    } else if bd == 9 {
        4
    } else if bd == 10 {
        16
    } else if bd == 11 {
        64
    } else {
        256
    };
    proof {
        reveal_with_fuel(pow2i, 9);
    }
    let keep: i64 = (8 - sharpness) as i64;
    let a: i64 = rdmult as i64;
    assert(-0x900_0000_0000 <= a * keep <= 0x900_0000_0000) by (nonlinear_arith)
        requires
            -0x8000_0000 <= a <= 0x7fff_ffff,
            -4104 <= keep <= 4104,
    ;
    let b: i64 = a * keep;
    let c: i64 = mult * depth_scale;
    assert(-0x900_0000_0000 * 5120 <= b * c <= 0x900_0000_0000 * 5120) by (nonlinear_arith)
        requires
            -0x900_0000_0000 <= b <= 0x900_0000_0000,
            0 <= c <= 5120,
    ;
    let v: i64 = b * c;
    if iq_tuning {
        crate::arith::shr_i64(v + 64, 7)
    } else {
        crate::arith::shr_i64(v + 16, 5)
    }
}

/// The trellis multiplier of luma intra blocks.
pub fn trellis_rdmult_intra_y(rdmult: i32, sharpness: i32, bd: u8) -> (r: i64)
    requires
        trellis_args(sharpness as int, bd as int),
    ensures
        r == trellis_value(rdmult as int, sharpness as int, 17, bd as int, 5),
{
    trellis_rdmult(rdmult, sharpness, 17, bd, false)
}

/// The trellis factor of an intra plane: 17 for luma; for chroma 13 with the
/// chroma table and 20 without.
pub open spec fn intra_trellis_factor(plane: int, use_chroma_trellis_rd_mult: bool) -> int {
    if plane == 0 {
        17
    } else if use_chroma_trellis_rd_mult {
        13
    } else {
        20
    }
}

/// The trellis multiplier of an intra block of any plane.
pub fn trellis_rdmult_intra(
    rdmult: i32,
    sharpness: i32,
    bd: u8,
    plane: usize,
    use_chroma_trellis_rd_mult: bool,
) -> (r: i64)
    requires
        trellis_args(sharpness as int, bd as int),
    ensures
        r == trellis_value(
            rdmult as int,
            sharpness as int,
            intra_trellis_factor(plane as int, use_chroma_trellis_rd_mult),
            bd as int,
            5,
        ),
{
    let mult: i64 = if plane == 0 {
        17
    } else if use_chroma_trellis_rd_mult {
        13
    } else {
        20
    };
    trellis_rdmult(rdmult, sharpness, mult, bd, false)
}

/// The settings of the transform-type search.
#[derive(Clone, Copy, Debug, PartialEq, Eq, Structural)]
pub struct TxTypeSearchPolicy {
    /// Never run the trellis.
    pub skip_trellis: bool,
    /// Mean-squared-error gate of the trellis, in squared quantizer steps.
    pub coeff_opt_dist_threshold: u32,
    /// Gate of the trellis on the sum of absolute transformed differences;
    /// all ones disables it.
    pub coeff_opt_satd_threshold: u32,
    /// 0: sample domain, 1: transform domain with a final sample-domain
    /// measurement, 2: transform domain.
    pub use_transform_domain_distortion: u8,
    /// Mean squared error from which the transform domain is used.
    pub tx_domain_dist_threshold: u32,
    /// Aggressiveness of the early exits; 0 disables them.
    pub adaptive_txb_search_level: i32,
    /// Stop once the best type quantizes to nothing.
    pub skip_tx_search: bool,
    pub sharpness: i32,
    pub use_chroma_trellis_rd_mult: bool,
    /// First transform depth of rectangular intra blocks.
    pub intra_tx_size_init_depth_rect: i32,
    /// First transform depth of square intra blocks.
    pub intra_tx_size_init_depth_sqr: i32,
    /// Only the default type of the intra mode is tried.
    pub use_default_intra_tx_type: bool,
    pub use_screen_content_tools: bool,
    pub use_rd_based_breakout_for_intra_tx_search: bool,
    pub prune_tx_type_est_rd: bool,
    pub prune_2d_txfm_mode: i32,
    pub predict_dc_level: u32,
    pub prune_intra_tx_depths_using_nn: bool,
}

impl TxTypeSearchPolicy {
    /// The all-intra policy at speed 0, as a value.
    pub open spec fn speed0_policy(chroma_table: bool) -> TxTypeSearchPolicy {
        TxTypeSearchPolicy {
            skip_trellis: false,
            coeff_opt_dist_threshold: 3200,
            coeff_opt_satd_threshold: u32::MAX,
            use_transform_domain_distortion: 0,
            tx_domain_dist_threshold: u32::MAX,
            adaptive_txb_search_level: 1,
            skip_tx_search: false,
            sharpness: 0,
            use_chroma_trellis_rd_mult: chroma_table,
            intra_tx_size_init_depth_rect: 0,
            intra_tx_size_init_depth_sqr: 1,
            use_default_intra_tx_type: false,
            use_screen_content_tools: false,
            use_rd_based_breakout_for_intra_tx_search: false,
            prune_tx_type_est_rd: false,
            prune_2d_txfm_mode: 1,
            predict_dc_level: 0,
            prune_intra_tx_depths_using_nn: false,
        }
    }

    /// The all-intra settings at speed 0.
    pub fn speed0_allintra() -> (r: Self)
        ensures
            r == Self::speed0_policy(true),
    {
        TxTypeSearchPolicy {
            skip_trellis: false,
            coeff_opt_dist_threshold: 3200,
            coeff_opt_satd_threshold: u32::MAX,
            use_transform_domain_distortion: 0,
            tx_domain_dist_threshold: u32::MAX,
            adaptive_txb_search_level: 1,
            skip_tx_search: false,
            sharpness: 0,
            use_chroma_trellis_rd_mult: true,
            intra_tx_size_init_depth_rect: 0,
            intra_tx_size_init_depth_sqr: 1,
            use_default_intra_tx_type: false,
            use_screen_content_tools: false,
            use_rd_based_breakout_for_intra_tx_search: false,
            prune_tx_type_est_rd: false,
            prune_2d_txfm_mode: 1,
            predict_dc_level: 0,
            prune_intra_tx_depths_using_nn: false,
        }
    }

    /// The good-quality settings at speed 0: those of all-intra without the
    /// chroma trellis table.
    pub fn speed0_good() -> (r: Self)
        ensures
            r == Self::speed0_policy(false),
    {
        let mut policy = Self::speed0_allintra();
        policy.use_chroma_trellis_rd_mult = false;
        policy
    }
}

/// What the type search of one intra transform block goes by.
pub struct TxTypeSearchInputs<'a> {
    /// Residual of the whole block, rows of the transform's width.
    pub residual: &'a [i16],
    pub tx_size: usize,
    /// 0 for luma; chroma is pinned to the type of its mode.
    pub plane: usize,
    /// The chroma mode, read for chroma.
    pub uv_mode: usize,
    /// The luma mode and its filter-intra state.
    pub mode: usize,
    pub use_filter_intra: bool,
    pub filter_intra_mode: usize,
    pub lossless: bool,
    pub reduced_tx_set_used: bool,
    pub bd: u8,
    /// Dequantizer of the AC coefficients.
    pub dequant_ac: i16,
    /// The block's rate-distortion multiplier.
    pub rdmult: i32,
}

impl<'a> TxTypeSearchInputs<'a> {
    /// The inputs are in range.
    pub open spec fn valid(self) -> bool {
        &&& self.tx_size < 19
        &&& self.residual.len() >= TX_SIZE_2D_TBL[self.tx_size as int]
        &&& (self.use_filter_intra ==> self.filter_intra_mode < 5)
        &&& (!self.use_filter_intra ==> self.mode < 13)
        &&& (self.plane > 0 ==> self.uv_mode <= UV_CFL_PRED)
        &&& (self.bd <= 8 || self.bd == 10 || self.bd == 12)
        &&& self.dequant_ac >= 0
    }

    pub open spec fn energy(self) -> int {
        residual_sse(
            self.residual@,
            TXS_W[self.tx_size as int] as int,
            0,
            0,
            TXS_W[self.tx_size as int] as int,
            TXS_H[self.tx_size as int] as int,
        )
    }

    /// Mean squared error at eight bits, in 1/256 units.
    pub open spec fn mse(self) -> int {
        normalised_sse(
            residual_mse_q8(
                self.energy(),
                TXS_W[self.tx_size as int] as int,
                TXS_H[self.tx_size as int] as int,
            ),
            self.bd as int,
        )
    }

    /// The allowed types and the pinned one.
    pub open spec fn mask(self) -> (u16, Option<usize>) {
        let direction = intra_direction(
            self.mode as int,
            self.use_filter_intra,
            self.filter_intra_mode as int,
        );
        let p = TxMaskParams {
            use_reduced_intra_txset: 1,
            use_derived_intra_tx_type_set: false,
            enable_flip_idtx: true,
            use_intra_dct_only: false,
        };
        if self.plane == 0 {
            tx_mask_intra(
                self.tx_size as int,
                direction,
                self.lossless,
                self.reduced_tx_set_used,
                p,
            )
        } else {
            let r = tx_mask_uv_intra(
                uv_intra_type(
                    self.uv_mode as int,
                    self.lossless,
                    self.tx_size as int,
                    self.reduced_tx_set_used,
                ),
                self.tx_size as int,
                direction,
                self.lossless,
                self.reduced_tx_set_used,
                p,
            );
            (r.0, Some(r.1))
        }
    }

    /// The plan of the search under a policy.
    pub open spec fn plan(self, pol: TxTypeSearchPolicy) -> TypeSearchPlan {
        let (mask, pinned) = self.mask();
        let domain = distortion_domain(
            pol.use_transform_domain_distortion as int,
            self.mse(),
            pol.tx_domain_dist_threshold as int,
            TXSIZE_SQR_UP_MAP[self.tx_size as int] == 4,
            pinned is Some || mask == 1,
        );
        TypeSearchPlan {
            tx_size: self.tx_size,
            rdmult: self.rdmult,
            allowed_tx_mask: mask,
            txk_map: IDENTITY_TXK_MAP,
            skip_trellis: trellis_off(
                pol.skip_trellis,
                self.mse(),
                pol.coeff_opt_dist_threshold as int,
                ac_qstep(self.dequant_ac as int, self.bd as int),
            ),
            use_tx_domain: domain.0,
            final_px_dist: domain.1,
            dc_only_blk: false,
            block_sse: (16 * normalised_sse(self.energy(), self.bd as int)) as i64,
            adaptive_txb_search_level: pol.adaptive_txb_search_level,
            skip_tx_search: pol.skip_tx_search,
        }
    }
}

/// The natural order of the transform types.
pub const IDENTITY_TXK_MAP: [usize; 16] = [0, 1, 2, 3, 4, 5, 6, 7, 8, 9, 10, 11, 12, 13, 14, 15];

/// Fix the plan of an intra transform block's type search.
pub fn plan_tx_type_search_intra(inp: &TxTypeSearchInputs<'_>, pol: &TxTypeSearchPolicy) -> (r:
    TypeSearchPlan)
    requires
        inp.valid(),
        pol.adaptive_txb_search_level < 64,
    ensures
        r == inp.plan(*pol),
        r.valid(),
{
    let tx_size: usize = inp.tx_size;
    let w: usize = TXS_W[tx_size];
    let h: usize = TXS_H[tx_size];
    proof {
        law_tx_dimensions(tx_size as int);
        assert(w * h == (h - 1) * w + w) by (nonlinear_arith);
        assert(0 * w == 0) by (nonlinear_arith);
    }
    let qstep: u32 = ac_quantizer_step(inp.dequant_ac, inp.bd);
    let (sse, mse) = av1_pixel_diff_dist(inp.residual, w, 0, 0, w, h);
    let block_sse: i64 = 16 * normalise_energy(sse, inp.bd) as i64;
    let mse_q8: u32 = normalise_energy(mse as u64, inp.bd) as u32;
    let params = TxMaskParams::speed0_allintra();
    let (mask, pinned) = if inp.plane == 0 {
        get_tx_mask_intra(
            tx_size,
            inp.mode,
            inp.use_filter_intra,
            inp.filter_intra_mode,
            inp.lossless,
            inp.reduced_tx_set_used,
            &params,
        )
    } else {
        let (m, t) = get_tx_mask_uv_intra(
            tx_size,
            inp.uv_mode,
            inp.mode,
            inp.use_filter_intra,
            inp.filter_intra_mode,
            inp.lossless,
            inp.reduced_tx_set_used,
            &params,
        );
        (m, Some(t))
    };
    let skip_trellis = is_trellis_off(
        pol.skip_trellis,
        mse_q8,
        pol.coeff_opt_dist_threshold,
        qstep,
    );
    let (use_tx_domain, final_px_dist) = pick_distortion_domain(
        pol.use_transform_domain_distortion,
        mse_q8,
        pol.tx_domain_dist_threshold,
        TXSIZE_SQR_UP_MAP[tx_size] == 4,
        pinned.is_some() || mask == 0x0001,
    );
    TypeSearchPlan {
        tx_size,
        rdmult: inp.rdmult,
        allowed_tx_mask: mask,
        txk_map: IDENTITY_TXK_MAP,
        skip_trellis,
        use_tx_domain,
        final_px_dist,
        dc_only_blk: false,
        block_sse,
        adaptive_txb_search_level: pol.adaptive_txb_search_level,
        skip_tx_search: pol.skip_tx_search,
    }
}

/// The winner of an intra transform block's type search.
pub struct TxTypeSearchResult {
    pub best_tx_type: usize,
    pub best_eob: u16,
    pub best_txb_ctx: u8,
    pub rate: i32,
    pub dist: i64,
    pub sse: i64,
    pub rd: i64,
    /// The winner has no coefficients.
    pub skip_txfm: bool,
    pub qcoeff: Vec<i32>,
    pub dqcoeff: Vec<i32>,
    /// Bit `t` is set when type `t` was tried.
    pub evaluated_mask: u16,
}

impl TxTypeSearchResult {
    /// The result carries the figures of this best type.
    pub open spec fn carries(self, b: BestModel) -> bool {
        &&& self.best_tx_type == b.tx_type
        &&& self.best_eob == b.eob
        &&& self.best_txb_ctx == b.txb_ctx
        &&& self.rate == b.rate
        &&& self.dist == b.dist
        &&& self.sse == b.sse
        &&& self.rd == b.rd
        &&& self.skip_txfm == (b.eob == 0)
        &&& self.qcoeff@ == b.qcoeff
        &&& self.dqcoeff@ == b.dqcoeff
    }

    /// The same, with the types that were tried.
    pub open spec fn reports(self, b: BestModel, tried: Set<int>) -> bool {
        &&& self.carries(b)
        &&& forall|t: usize|
            t < TX_TYPES ==> #[trigger] flag_has(self.evaluated_mask, t) == tried.contains(t as int)
    }

    /// The result of a search that ended with this best type.
    pub fn of_best(b: TypeBest, evaluated_mask: u16) -> (r: Self)
        ensures
            r.carries(b.model()),
            r.evaluated_mask == evaluated_mask,
    {
        TxTypeSearchResult {
            best_tx_type: b.tx_type,
            best_eob: b.eob,
            best_txb_ctx: b.txb_ctx,
            rate: b.rate,
            dist: b.dist,
            sse: b.sse,
            rd: b.rd,
            skip_txfm: b.eob == 0,
            qcoeff: b.qcoeff,
            dqcoeff: b.dqcoeff,
            evaluated_mask,
        }
    }
}

/// The transform-type search of one intra transform block, over the outcomes
/// that the signal path gives for each type (`outs[t]` for type `t`; those of
/// types that are not tried are not read). There is no winner only when there
/// is no type to try. The search has to be one that neither gates the trellis
/// on transformed differences nor measures its winner again.
pub fn search_tx_type_intra(
    inp: &TxTypeSearchInputs<'_>,
    pol: &TxTypeSearchPolicy,
    outs: &[TypeOutcome],
    ref_best_rd: i64,
) -> (r: Option<TxTypeSearchResult>)
    requires
        inp.valid(),
        pol.adaptive_txb_search_level < 64,
        pol.coeff_opt_satd_threshold == u32::MAX || inp.plan(*pol).skip_trellis,
        !inp.plan(*pol).final_px_dist,
        outs.len() >= TX_TYPES,
        forall|t: int| 0 <= t < TX_TYPES ==> (#[trigger] outs[t]).valid(),
    ensures
        ({
            let m = SearchModel::after(inp.plan(*pol), outs@, ref_best_rd as int, 16);
            match r {
                Some(win) => m.best matches Some(b) && win.reports(b, m.tried),
                None => m.best is None,
            }
        }),
{
    let plan = plan_tx_type_search_intra(inp, pol);
    let (best, evaluated_mask) = search_types(&plan, outs, ref_best_rd);
    match best {
        None => None,
        Some(b) => Some(TxTypeSearchResult::of_best(b, evaluated_mask)),
    }
}

/// The search of an intra block always yields a winner.
pub proof fn law_intra_search_yields_a_winner(
    inp: TxTypeSearchInputs<'_>,
    pol: TxTypeSearchPolicy,
    outs: Seq<TypeOutcome>,
    ref_best_rd: int,
)
    requires
        inp.valid(),
        inp.plan(pol).valid(),
        outs.len() >= TX_TYPES,
        forall|t: int| 0 <= t < TX_TYPES ==> (#[trigger] outs[t]).valid(),
    ensures
        SearchModel::after(inp.plan(pol), outs, ref_best_rd, 16).best is Some,
{
    let plan = inp.plan(pol);
    let mask = plan.allowed_tx_mask;
    let direction = intra_direction(
        inp.mode as int,
        inp.use_filter_intra,
        inp.filter_intra_mode as int,
    );
    if inp.plane == 0 {
        law_tx_mask_intra_is_usable(
            inp.tx_size as int,
            direction,
            inp.lossless,
            inp.reduced_tx_set_used,
            TxMaskParams {
                use_reduced_intra_txset: 1,
                use_derived_intra_tx_type_set: false,
                enable_flip_idtx: true,
                use_intra_dct_only: false,
            },
        );
    } else {
        let uv = uv_intra_type(
            inp.uv_mode as int,
            inp.lossless,
            inp.tx_size as int,
            inp.reduced_tx_set_used,
        );
        assert(uv < 4);
        let chosen = inp.mask().1.unwrap() as u16;
        assert(1u16 << chosen != 0) by (bit_vector)
            requires
                chosen < 16,
        ;
    }
    assert(mask != 0);
    let k = lemma_some_bit(mask);
    SearchModel::law_search_yields_a_winner(plan, outs, ref_best_rd, 16, k as int);
}

pub proof fn lemma_some_bit(mask: u16) -> (t: usize)
    requires
        mask != 0,
    ensures
        t < 16,
        flag_has(mask, t),
{
    assert(mask & (1u16 << 0) != 0 || mask & (1u16 << 1) != 0 || mask & (1u16 << 2) != 0 || mask
        & (1u16 << 3) != 0 || mask & (1u16 << 4) != 0 || mask & (1u16 << 5) != 0 || mask & (1u16
        << 6) != 0 || mask & (1u16 << 7) != 0 || mask & (1u16 << 8) != 0 || mask & (1u16 << 9) != 0
        || mask & (1u16 << 10) != 0 || mask & (1u16 << 11) != 0 || mask & (1u16 << 12) != 0 || mask
        & (1u16 << 13) != 0 || mask & (1u16 << 14) != 0 || mask & (1u16 << 15) != 0)
        by (bit_vector)
        requires
            mask != 0,
    ;
    assert(flag_has(mask, 0) || flag_has(mask, 1) || flag_has(mask, 2) || flag_has(mask, 3)
        || flag_has(mask, 4) || flag_has(mask, 5) || flag_has(mask, 6) || flag_has(mask, 7)
        || flag_has(mask, 8) || flag_has(mask, 9) || flag_has(mask, 10) || flag_has(mask, 11)
        || flag_has(mask, 12) || flag_has(mask, 13) || flag_has(mask, 14) || flag_has(mask, 15));
    choose|t: usize| t < 16 && flag_has(mask, t)
}

/// A mask of one bit holds that bit alone.
pub proof fn lemma_single_bit(chosen: usize, t: usize)
    requires
        chosen < 16,
        t < 16,
    ensures
        flag_has(1u16 << (chosen as u16), t) == (t == chosen),
{
    let (a, b) = (chosen as u16, t as u16);
    assert(((1u16 << a) & (1u16 << b) != 0) == (a == b)) by (bit_vector)
        requires
            a < 16,
            b < 16,
    ;
}

/// A chroma block has exactly one type to try.
pub proof fn law_chroma_mask_holds_one_type(
    uv_type: usize,
    tx_size: int,
    direction: int,
    lossless: bool,
    reduced_tx_set_used: bool,
    p: TxMaskParams,
    t: usize,
)
    requires
        uv_type < 16,
        t < 16,
    ensures
        ({
            let r = tx_mask_uv_intra(uv_type, tx_size, direction, lossless, reduced_tx_set_used, p);
            flag_has(r.0, t) == (t == r.1)
        }),
{
    let chosen = tx_mask_uv_intra(
        uv_type,
        tx_size,
        direction,
        lossless,
        reduced_tx_set_used,
        p,
    ).1;
    lemma_single_bit(chosen, t);
}

/// The intra mode that a mode becomes when rows and columns change places.
pub open spec fn mirrored_mode(mode: int) -> int {
    if mode == 1 {
        2
    } else if mode == 2 {
        1
    } else if mode == 5 {
        6
    } else if mode == 6 {
        5
    } else if mode == 7 {
        8
    } else if mode == 8 {
        7
    } else if mode == 10 {
        11
    } else if mode == 11 {
        10
    } else {
        mode
    }
}

/// Rows and columns are treated alike: the type of a mirrored mode is the
/// mirrored type, which swaps the kernels of the two directions, and a mode
/// that predicts from above alone has the asymmetric kernel down its columns.
pub proof fn law_mirrored_modes_have_mirrored_types(mode: int)
    requires
        0 <= mode < 13,
    ensures
        ({
            let (t, u) = (
                INTRA_MODE_TO_TX_TYPE[mode],
                INTRA_MODE_TO_TX_TYPE[mirrored_mode(mode)],
            );
            &&& t < 4
            &&& u == if t == 1 {
                2
            } else if t == 2 {
                1
            } else {
                t
            }
            &&& mode == 1 || mode == 5 || mode == 8 || mode == 10 ==> t == 1
        }),
{
}

/// The trellis multiplier follows the rate multiplier: a sample depth of ten
/// bits counts as a rate multiplier sixteen times as large and one of twelve
/// as one 256 times, full sharpness leaves nothing, and 32 of it are the
/// product of multiplier, remaining sharpness and factor to within half.
pub proof fn law_trellis_follows_the_rate_multiplier(
    rdmult: int,
    sharpness: int,
    mult: int,
    rshift: int,
)
    ensures
        trellis_value(rdmult, sharpness, mult, 10, rshift) == trellis_value(
            16 * rdmult,
            sharpness,
            mult,
            8,
            rshift,
        ),
        trellis_value(rdmult, sharpness, mult, 12, rshift) == trellis_value(
            256 * rdmult,
            sharpness,
            mult,
            8,
            rshift,
        ),
        trellis_value(rdmult, 8, mult, 8, 5) == 0,
        trellis_value(rdmult, 8, mult, 8, 7) == 0,
        -16 <= 32 * trellis_value(rdmult, sharpness, mult, 8, 5) - rdmult * (8 - sharpness) * mult
            <= 16,
        -64 <= 128 * trellis_value(rdmult, sharpness, mult, 8, 7) - rdmult * (8 - sharpness) * mult
            <= 64,
{
    assert(pow2i(0) == 1 && pow2i(4) == 16 && pow2i(8) == 256 && pow2i(5) == 32 && pow2i(7) == 128
        && pow2i(6) == 64) by {
        reveal_with_fuel(pow2i, 10);
    }
    let s = 8 - sharpness;
    assert(rdmult * s * (mult * 16) == (16 * rdmult) * s * (mult * 1)) by (nonlinear_arith);
    assert(rdmult * s * (mult * 256) == (256 * rdmult) * s * (mult * 1)) by (nonlinear_arith);
    let p = rdmult * s * mult;
    assert(rdmult * s * (mult * 1) == p) by (nonlinear_arith)
        requires
            p == rdmult * s * mult,
    ;
    assert(rdmult * 0 * (mult * 1) == 0) by (nonlinear_arith);
    assert(trellis_value(rdmult, 8, mult, 8, 5) == 16int / 32int);
    assert(trellis_value(rdmult, 8, mult, 8, 7) == 64int / 128int);
    assert(trellis_value(rdmult, sharpness, mult, 8, 5) == (p + 16) / 32);
    assert(trellis_value(rdmult, sharpness, mult, 8, 7) == (p + 64) / 128);
}

/// A sample of a transform block is visible exactly where it lies before the
/// frame's edge: where the block overhangs, the edge lies as many samples of
/// the plane before the block's end as eighths, halved on a subsampled side.
pub proof fn law_visible_samples_lie_before_the_edge(
    side: int,
    plane: int,
    blk: int,
    edge: int,
    ss: int,
    x: int,
)
    requires
        0 <= x < side,
        ss == 0 || ss == 1,
    ensures
        0 <= visible_side(side, plane, blk, edge, ss) <= side,
        edge >= 0 ==> x < visible_side(side, plane, blk, edge, ss),
        edge < 0 && ss == 0 ==> (x < visible_side(side, plane, blk, edge, ss) <==> 8 * (plane - 4
            * blk - x) + edge >= 8),
        edge < 0 && ss == 1 ==> (x < visible_side(side, plane, blk, edge, ss) <==> 16 * (plane - 4
            * blk - x) + edge >= 16),
{
}

/// Blocks predicted from a frame may use every type that blocks predicted
/// within it may, and all of them the plain one; the reduced choice is part of
/// the full one.
pub proof fn law_inter_blocks_have_more_types(tx_size: int)
    requires
        0 <= tx_size < 19,
    ensures
        ({
            let intra = AV1_EXT_TX_USED_FLAG[ext_tx_set(tx_size, false, false) as int];
            let inter = AV1_EXT_TX_USED_FLAG[ext_tx_set(tx_size, true, false) as int];
            let few = AV1_EXT_TX_USED_FLAG[ext_tx_set(tx_size, false, true) as int];
            let least = AV1_EXT_TX_USED_FLAG[ext_tx_set(tx_size, true, true) as int];
            &&& intra & inter == intra
            &&& few & intra == few
            &&& least & inter == least
            &&& least & 1 == 1
            &&& few & 1 == 1
            &&& (TXS_W[tx_size] == 64 || TXS_H[tx_size] == 64 ==> inter == 1)
        }),
{
    assert(0x0001u16 & 0x0001 == 0x0001 && 0x0001u16 & 0x0201 == 0x0001 && 0x020Fu16 & 0x0FFF
        == 0x020F && 0x0E0Fu16 & 0xFFFF == 0x0E0F && 0x020Fu16 & 0xFFFF == 0x020F && 0x020Fu16
        & 0x020F == 0x020F && 0x020Fu16 & 0x0E0F == 0x020F && 0x0201u16 & 0x0201 == 0x0201
        && 0x0201u16 & 0x0FFF == 0x0201 && 0x0201u16 & 0xFFFF == 0x0201 && 0x0201u16 & 1 == 1
        && 0x020Fu16 & 1 == 1) by (bit_vector);
}

/// Without flipped and identity types only the first four are left, those that
/// were there before.
pub proof fn law_flips_are_switched_off(flag: u16, t: usize)
    requires
        t < 16,
    ensures
        flag_has(without_flips(flag, false), t) <==> flag_has(flag, t) && t < 4,
        without_flips(flag, true) == flag,
{
    let k: u16 = t as u16;
    assert(((flag & 0x000F) & (1u16 << k) != 0) <==> (flag & (1u16 << k) != 0 && k < 4))
        by (bit_vector)
        requires
            k < 16,
    ;
}

/// The mean squared error of a residual is its energy over its area, in 1/256
/// units rounded down, while that fits in 32 bits.
pub proof fn law_mean_square_is_energy_over_area(sse: int, cols: int, rows: int)
    requires
        0 <= sse,
        0 < cols,
        0 < rows,
        256 * sse < 0x1_0000_0000 * (cols * rows),
    ensures
        ({
            let m = residual_mse_q8(sse, cols, rows);
            m * (cols * rows) <= 256 * sse < (m + 1) * (cols * rows)
        }),
{
    let (a, e) = (cols * rows, 256 * sse);
    assert(a > 0) by (nonlinear_arith)
        requires
            a == cols * rows,
            0 < cols,
            0 < rows,
    ;
    assert(0 <= e / a < 0x1_0000_0000 && (e / a) * a <= e < (e / a + 1) * a) by (nonlinear_arith)
        requires
            0 <= e < 0x1_0000_0000 * a,
            a > 0,
    ;
}

/// A lossless block and one with a side of 64 samples are held to the plain
/// type, and no block predicted within a frame uses a type that its set lacks.
pub proof fn law_intra_types_are_of_the_set(
    tx_size: int,
    direction: int,
    lossless: bool,
    reduced: bool,
    p: TxMaskParams,
)
    requires
        0 <= tx_size < 19,
        0 <= direction < 13,
    ensures
        lossless || TXS_W[tx_size] == 64 || TXS_H[tx_size] == 64 ==> tx_mask_intra(
            tx_size,
            direction,
            lossless,
            reduced,
            p,
        ) == (1u16, Some(0usize)),
        ({
            let used = AV1_EXT_TX_USED_FLAG[ext_tx_set(tx_size, false, reduced) as int];
            let mask = tx_mask_intra(tx_size, direction, lossless, reduced, p).0;
            mask & used == mask
        }),
{
    let set = ext_tx_set(tx_size, false, reduced) as int;
    let used = AV1_EXT_TX_USED_FLAG[set];
    let few = AV1_REDUCED_INTRA_TX_USED_FLAG[direction];
    let derived = AV1_DERIVED_INTRA_TX_USED_FLAG[direction];
    let flag = intra_set_flag(set, direction, p);
    let kept = without_flips(flag, p.enable_flip_idtx);
    let dct: u16 = DCT_ADST_TX_MASK;
    assert(0x080Fu16 & 0x0E0F == 0x080F && 0x040Fu16 & 0x0E0F == 0x040F && 0x020Fu16 & 0x0E0F
        == 0x020F && 0x0C0Eu16 & 0x0E0F == 0x0C0E && 0x0001u16 & 1 == 1 && 0x020Fu16 & 1 == 1
        && 0x0E0Fu16 & 1 == 1) by (bit_vector);
    assert(few & 0x0E0F == few);
    lemma_part_of_a_set();
    assert(used & 1 == 1 && 1u16 & used == 1);
    assert(flag & used == flag);
    assert(kept & used == kept);
}

/// What is left of a part of a set is a part of it.
proof fn lemma_part_of_a_set()
    by (bit_vector)
    ensures
        forall|a: u16, b: u16| (#[trigger] (a & b)) & a == a & b && (a & b) & b == a & b,
        forall|a: u16, b: u16, c: u16| b & c == b ==> #[trigger] ((a & b) & c) == a & b,
        forall|a: u16, b: u16, c: u16| b & c == b ==> #[trigger] ((b & a) & c) == b & a,
        forall|a: u16| #[trigger] (1u16 & a) == 0 || (1u16 & a) == 1,
        forall|a: u16| (#[trigger] (a & 1u16)) == 1u16 & a,
        forall|a: u16| (#[trigger] (a & a)) == a,
{
}

} // verus!
