//! Temporal dependency model: how much the frames of a group depend on each
//! block of each frame.
//!
//! The costs of a block are credited back to the blocks of the reference
//! frames that it was predicted from. What is computed in floating point
//! enters as a value or as a function.

use vstd::prelude::*;

use crate::arith::{max_int, min_int, pow2i, shr_i64, trunc_div};
use crate::samples::abs_int;
pub use crate::tpl_costs::{
    TplRdmultSbParams,
};
pub use crate::tpl_gop::{
    coded_to_superres_mi,
    compare_sad,
    get_gop_length,
    is_alike_mv,
    pixels_to_mi,
    rate_estimator,
    skip_tpl_for_frame,
    GopLengthVerdict,
};

verus! {

/// Fractional bits of a dependency cost.
pub const TPL_DEP_COST_SCALE_LOG2: u32 = 4;

/// Number of references of an inter frame.
pub const INTER_REFS_PER_FRAME: usize = 7;

/// Number of reference slots.
pub const REF_FRAMES: usize = 8;

/// Longest lookahead.
pub const MAX_LAG_BUFFERS: usize = 48;

/// Group length from which the model is off.
pub const MAX_TPL_FRAME_IDX: i32 = 96;

/// Largest quantizer index.
pub const MAXQ: i32 = 255;

/// Samples to a mode-info unit.
pub const MI_SIZE: i32 = 4;

/// A motion vector, in eighths of a sample.
#[derive(Clone, Copy, Debug, PartialEq, Eq, Structural)]
pub struct Mv {
    pub row: i16,
    pub col: i16,
}

impl Default for Mv {
    fn default() -> (r: Self)
        ensures
            r == (Mv { row: 0, col: 0 }),
    {
        Mv { row: 0, col: 0 }
    }
}

/// Length of the intersection of two intervals of one length.
pub open spec fn shared_length(a: int, b: int, len: int) -> int {
    max_int(0, len - abs_int(a - b))
}

/// Area of the intersection of two rectangles of one size.
pub open spec fn overlap_area(
    row_a: int,
    col_a: int,
    row_b: int,
    col_b: int,
    width: int,
    height: int,
) -> int {
    shared_length(row_a, row_b, height) * shared_length(col_a, col_b, width)
}

/// Area of the intersection of two rectangles of one size, 0 where they do not
/// meet.
#[must_use]
pub fn get_overlap_area(
    row_a: i32,
    col_a: i32,
    row_b: i32,
    col_b: i32,
    width: i32,
    height: i32,
) -> (r: i32)
    requires
        i32::MIN <= row_a + height <= i32::MAX,
        i32::MIN <= row_b + height <= i32::MAX,
        i32::MIN <= col_a + width <= i32::MAX,
        i32::MIN <= col_b + width <= i32::MAX,
        overlap_area(
            row_a as int,
            col_a as int,
            row_b as int,
            col_b as int,
            width as int,
            height as int,
        ) <= i32::MAX,
    ensures
        r == overlap_area(
            row_a as int,
            col_a as int,
            row_b as int,
            col_b as int,
            width as int,
            height as int,
        ),
{
    let min_row: i32 = if row_a > row_b {
        row_a
    } else {
        row_b
    };
    let max_row: i32 = if row_a < row_b {
        row_a + height
    } else {
        row_b + height
    };
    let min_col: i32 = if col_a > col_b {
        col_a
    } else {
        col_b
    };
    let max_col: i32 = if col_a < col_b {
        col_a + width
    } else {
        col_b + width
    };
    let ghost h = shared_length(row_a as int, row_b as int, height as int);
    let ghost w = shared_length(col_a as int, col_b as int, width as int);
    if min_row < max_row && min_col < max_col {
        assert(h == max_row - min_row && w == max_col - min_col);
        assert(h >= 1 && w >= 1);
        assert(h <= h * w && w <= h * w) by (nonlinear_arith)
            requires
                h >= 1,
                w >= 1,
        ;
        (max_row - min_row) * (max_col - min_col)
    } else {
        assert(h == 0 || w == 0);
        assert(h * w == 0) by (nonlinear_arith)
            requires
                h == 0 || w == 0,
        ;
        0
    }
}

/// Position of a mode-info unit in a grid with one cell for `2^shift` units
/// each way.
pub open spec fn grid_pos(mi_row: int, mi_col: int, stride: int, shift: int) -> int {
    (mi_row / pow2i(shift)) * stride + mi_col / pow2i(shift)
}

/// Index of the grid cell that covers a mode-info unit.
#[must_use]
pub fn tpl_ptr_pos(mi_row: i32, mi_col: i32, stride: i32, right_shift: u8) -> (r: i32)
    requires
        right_shift < 32,
        i32::MIN <= (mi_row as int / pow2i(right_shift as int)) * stride <= i32::MAX,
        i32::MIN <= grid_pos(mi_row as int, mi_col as int, stride as int, right_shift as int)
            <= i32::MAX,
    ensures
        r == grid_pos(mi_row as int, mi_col as int, stride as int, right_shift as int),
{
    let row: i64 = shr_i64(mi_row as i64, right_shift as u32);
    let col: i64 = shr_i64(mi_col as i64, right_shift as u32);
    proof {
        lemma_shrunk(mi_row as int, right_shift as int);
        lemma_shrunk(mi_col as int, right_shift as int);
    }
    row as i32 * stride + col as i32
}

proof fn lemma_shrunk(x: int, n: int)
    requires
        i32::MIN <= x <= i32::MAX,
        n >= 0,
    ensures
        i32::MIN <= x / pow2i(n) <= i32::MAX,
        x >= 0 ==> 0 <= x / pow2i(n) <= x,
{
    crate::arith::lemma_pow2i_pos(n);
    let p = pow2i(n);
    assert(i32::MIN <= x / p <= i32::MAX && (x >= 0 ==> 0 <= x / p <= x)) by (nonlinear_arith)
        requires
            p >= 1,
            i32::MIN <= x <= i32::MAX,
    ;
}

/// `a / b` rounded toward zero, for a non-negative `a` and a divisor of either
/// sign.
pub open spec fn magnitude_div(a: int, b: int) -> int {
    if b > 0 {
        a / b
    } else {
        -(a / (-b))
    }
}

/// `ref_pos / bsize_pix`, rounded down for a positive divisor. With a
/// negative divisor positions of either sign round toward the other side.
#[must_use]
pub fn round_floor(ref_pos: i32, bsize_pix: i32) -> (r: i32)
    requires
        bsize_pix != 0,
    ensures
        r == if ref_pos < 0 {
            -(1 + magnitude_div(-ref_pos - 1, bsize_pix as int))
        } else {
            magnitude_div(ref_pos as int, bsize_pix as int)
        },
        bsize_pix > 0 ==> r == ref_pos as int / bsize_pix as int,
{
    let b: i64 = bsize_pix as i64;
    let a: i64 = if ref_pos < 0 {
        -(ref_pos as i64) - 1
    } else {
        ref_pos as i64
    };
    let size: i64 = if b > 0 {
        b
    } else {
        -b
    };
    let q: i64 = a / size;
    proof {
        let (x, y) = (a as int, size as int);
        assert(0 <= x / y <= x) by (nonlinear_arith)
            requires
                x >= 0,
                y >= 1,
        ;
        if ref_pos < 0 {
            let z = ref_pos as int;
            assert(z / y == -(1 + x / y)) by (nonlinear_arith)
                requires
                    y > 0,
                    x >= 0,
                    z == -x - 1,
            ;
        }
    }
    let t: i64 = if b > 0 {
        q
    } else {
        -q
    };
    if ref_pos < 0 {
        (-(1 + t)) as i32
    } else {
        t as i32
    }
}

/// A model of the rate that the distortions of a block call for, in bits:
/// defined everywhere, and the same for the same arguments. The arguments are
/// the rate, the distortion against the reconstructed reference, the
/// distortion against the source reference, and the number of samples.
pub open spec fn is_rate_model<R: Fn(i64, i64, i64, i32) -> i64>(f: R) -> bool {
    &&& forall|a: i64, b: i64, c: i64, n: i32| #[trigger] call_requires(f, (a, b, c, n))
    &&& forall|a: i64, b: i64, c: i64, n: i32, y: i64, z: i64| #[trigger]
        call_ensures(f, (a, b, c, n), y) && #[trigger] call_ensures(f, (a, b, c, n), z) ==> y == z
}

/// What a rate model says.
pub open spec fn modelled_rate<R: Fn(i64, i64, i64, i32) -> i64>(
    f: R,
    a: i64,
    b: i64,
    c: i64,
    n: i32,
) -> i64 {
    choose|y: i64| #[trigger] call_ensures(f, (a, b, c, n), y)
}

/// The rate that a block passes on: its own where there is hardly any
/// distortion to pass, else the modelled one, in rate units.
pub open spec fn passed_rate<R: Fn(i64, i64, i64, i32) -> i64>(
    f: R,
    delta_rate: i64,
    recrf_dist: i64,
    srcrf_dist: i64,
    pix_num: i32,
) -> i64 {
    if srcrf_dist <= 128 {
        delta_rate
    } else {
        modelled_rate(f, delta_rate, recrf_dist, srcrf_dist, pix_num).wrapping_mul(8192)
    }
}

/// The rate that a block passes on. `model` is consulted only where the
/// distortion against the source reference is above 128.
#[must_use]
pub fn delta_rate_cost<R: Fn(i64, i64, i64, i32) -> i64>(
    delta_rate: i64,
    recrf_dist: i64,
    srcrf_dist: i64,
    pix_num: i32,
    model: &R,
) -> (r: i64)
    requires
        is_rate_model(*model),
    ensures
        r == passed_rate(*model, delta_rate, recrf_dist, srcrf_dist, pix_num),
{
    if srcrf_dist <= 128 {
        return delta_rate;
    }
    assert(call_requires(*model, (delta_rate, recrf_dist, srcrf_dist, pix_num)));
    let rate_cost: i64 = model(delta_rate, recrf_dist, srcrf_dist, pix_num);
    assert(call_ensures(*model, (delta_rate, recrf_dist, srcrf_dist, pix_num), rate_cost));
    rate_cost.wrapping_mul(8192)
}

/// A model of the share of a distortion that a block passes on: defined
/// everywhere, and the same for the same arguments. The arguments are the
/// distortion that depends on the block, and its distortions against the
/// reconstructed and the source reference.
pub open spec fn is_share_model<D: Fn(i64, i64, i64) -> i64>(f: D) -> bool {
    &&& forall|a: i64, b: i64, c: i64| #[trigger] call_requires(f, (a, b, c))
    &&& forall|a: i64, b: i64, c: i64, y: i64, z: i64| #[trigger]
        call_ensures(f, (a, b, c), y) && #[trigger] call_ensures(f, (a, b, c), z) ==> y == z
}

/// What a share model says.
pub open spec fn modelled_share<D: Fn(i64, i64, i64) -> i64>(f: D, a: i64, b: i64, c: i64) -> i64 {
    choose|y: i64| #[trigger] call_ensures(f, (a, b, c), y)
}

/// Cost of a 64-bit rate and a distortion, in wrapping arithmetic.
pub open spec fn wide_rdcost(rm: i32, rate: i64, dist: i64) -> i64 {
    ((rate.wrapping_mul(rm as i64).wrapping_add(256) as int / 512) as i64).wrapping_add(
        dist.wrapping_mul(128),
    )
}

/// See [`wide_rdcost`].
pub fn rdcost_i64_rate(rm: i32, rate: i64, dist: i64) -> (r: i64)
    ensures
        r == wide_rdcost(rm, rate, dist),
{
    let scaled: i64 = rate.wrapping_mul(rm as i64).wrapping_add(256);
    proof {
        assert(pow2i(9) == 512) by {
            reveal_with_fuel(pow2i, 10);
        }
    }
    shr_i64(scaled, 9).wrapping_add(dist.wrapping_mul(128))
}

/// The model's figures of one grid cell.
#[derive(Clone, Copy, Debug, PartialEq, Eq)]
pub struct TplDepStats {
    /// Squared error against the source reference.
    pub srcrf_sse: i64,
    pub srcrf_dist: i64,
    /// Squared error against the reconstructed reference.
    pub recrf_sse: i64,
    pub recrf_dist: i64,
    pub intra_sse: i64,
    pub intra_dist: i64,
    /// Distortion of each half of a compound prediction.
    pub cmp_recrf_dist: [i64; 2],
    /// Rate credited by the blocks that depend on this one.
    pub mc_dep_rate: i64,
    /// Distortion credited by the blocks that depend on this one.
    pub mc_dep_dist: i64,
    pub pred_error: [i64; 7],
    pub intra_cost: i32,
    pub inter_cost: i32,
    pub srcrf_rate: i32,
    pub recrf_rate: i32,
    pub intra_rate: i32,
    /// Rate of each half of a compound prediction.
    pub cmp_recrf_rate: [i32; 2],
    /// The vector chosen for each reference.
    pub mv: [Mv; 7],
    /// The references of the block, -1 for none.
    pub ref_frame_index: [i8; 2],
}

impl TplDepStats {
    /// All zero.
    pub open spec fn cleared(self) -> bool {
        &&& self.srcrf_sse == 0
        &&& self.srcrf_dist == 0
        &&& self.recrf_sse == 0
        &&& self.recrf_dist == 0
        &&& self.intra_sse == 0
        &&& self.intra_dist == 0
        &&& self.cmp_recrf_dist@ == seq![0i64, 0i64]
        &&& self.mc_dep_rate == 0
        &&& self.mc_dep_dist == 0
        &&& self.pred_error@ == seq![0i64, 0i64, 0i64, 0i64, 0i64, 0i64, 0i64]
        &&& self.intra_cost == 0
        &&& self.inter_cost == 0
        &&& self.srcrf_rate == 0
        &&& self.recrf_rate == 0
        &&& self.intra_rate == 0
        &&& self.cmp_recrf_rate@ == seq![0i32, 0i32]
        &&& forall|i: int| 0 <= i < 7 ==> #[trigger] self.mv[i] == (Mv { row: 0, col: 0 })
        &&& self.ref_frame_index@ == seq![0i8, 0i8]
    }
}

impl TplDepStats {
    /// The distortion that a prediction from reference `ref_idx` is held
    /// against: that of the source reference, or of the other half of a
    /// compound prediction.
    pub open spec fn source_dist(self, ref_idx: int) -> i64 {
        if self.ref_frame_index[1] >= 0 {
            self.cmp_recrf_dist[1 - ref_idx]
        } else {
            self.srcrf_dist
        }
    }

    /// The same for the rate.
    pub open spec fn source_rate(self, ref_idx: int) -> i32 {
        if self.ref_frame_index[1] >= 0 {
            self.cmp_recrf_rate[1 - ref_idx]
        } else {
            self.srcrf_rate
        }
    }

    fn source_figures(&self, ref_idx: usize) -> (r: (i64, i32))
        requires
            ref_idx < 2,
        ensures
            forall|k: int| k == ref_idx ==> r.0 == #[trigger] self.source_dist(k),
            forall|k: int| k == ref_idx ==> r.1 == #[trigger] self.source_rate(k),
    {
        if self.ref_frame_index[1] >= 0 {
            (self.cmp_recrf_dist[1 - ref_idx], self.cmp_recrf_rate[1 - ref_idx])
        } else {
            (self.srcrf_dist, self.srcrf_rate)
        }
    }
}

impl Default for TplDepStats {
    fn default() -> (r: Self)
        ensures
            r.cleared(),
    {
        let mv = Mv::default();
        TplDepStats {
            srcrf_sse: 0,
            srcrf_dist: 0,
            recrf_sse: 0,
            recrf_dist: 0,
            intra_sse: 0,
            intra_dist: 0,
            cmp_recrf_dist: [0, 0],
            mc_dep_rate: 0,
            mc_dep_dist: 0,
            pred_error: [0, 0, 0, 0, 0, 0, 0],
            intra_cost: 0,
            inter_cost: 0,
            srcrf_rate: 0,
            recrf_rate: 0,
            intra_rate: 0,
            cmp_recrf_rate: [0, 0],
            mv: [mv, mv, mv, mv, mv, mv, mv],
            ref_frame_index: [0, 0],
        }
    }
}

/// The model of one frame of a group.
#[derive(Clone, Debug)]
pub struct TplDepFrame {
    /// The figures were computed.
    pub is_valid: bool,
    /// The grid, row by row.
    pub stats: Vec<TplDepStats>,
    /// Cells from one row of the grid to the next.
    pub stride: i32,
    pub width: i32,
    pub height: i32,
    /// Height of the frame in mode-info units.
    pub mi_rows: i32,
    /// Width of the frame in mode-info units.
    pub mi_cols: i32,
    /// Rate-distortion multiplier of the frame.
    pub base_rdmult: i32,
    pub frame_display_index: u32,
    pub use_pred_sad: bool,
    /// Position in the group of the frame in each reference slot, negative for
    /// an empty one.
    pub ref_map_index: [i32; 8],
}

/// A frame's model as a value.
pub struct TplFrameModel {
    pub is_valid: bool,
    pub stats: Seq<TplDepStats>,
    pub stride: i32,
    pub width: i32,
    pub height: i32,
    pub mi_rows: i32,
    pub mi_cols: i32,
    pub base_rdmult: i32,
    pub frame_display_index: u32,
    pub use_pred_sad: bool,
    pub ref_map_index: [i32; 8],
}

impl View for TplDepFrame {
    type V = TplFrameModel;

    open spec fn view(&self) -> TplFrameModel {
        TplFrameModel {
            is_valid: self.is_valid,
            stats: self.stats@,
            stride: self.stride,
            width: self.width,
            height: self.height,
            mi_rows: self.mi_rows,
            mi_cols: self.mi_cols,
            base_rdmult: self.base_rdmult,
            frame_display_index: self.frame_display_index,
            use_pred_sad: self.use_pred_sad,
            ref_map_index: self.ref_map_index,
        }
    }
}

/// The model of a group of frames.
#[derive(Clone, Debug)]
pub struct TplParams {
    /// The figures of the group are complete.
    pub ready: bool,
    /// Base-two logarithm of the mode-info units to a grid cell.
    pub tpl_stats_block_mis_log2: u8,
    /// Side of the blocks of the motion search.
    pub tpl_bsize_1d: u8,
    /// The frames, by position in the group.
    pub frames: Vec<TplDepFrame>,
    /// The frame being processed.
    pub frame_idx: i32,
}

/// The model of a group as a value.
pub struct TplModel {
    pub ready: bool,
    pub log2: u8,
    pub bsize: u8,
    pub frames: Seq<TplFrameModel>,
    pub frame_idx: i32,
}

impl View for TplParams {
    type V = TplModel;

    open spec fn view(&self) -> TplModel {
        TplModel {
            ready: self.ready,
            log2: self.tpl_stats_block_mis_log2,
            bsize: self.tpl_bsize_1d,
            frames: self.frames@.map_values(|f: TplDepFrame| f@),
            frame_idx: self.frame_idx,
        }
    }
}

/// An offset in eighths of a sample to whole samples, halves away from zero.
pub open spec fn full_pel(x: int) -> int {
    (x + 3 + (if x >= 0 {
        1int
    } else {
        0
    })) / 8
}

fn full_pel_of(x: i16) -> (r: i32)
    ensures
        r == full_pel(x as int),
        -4096 <= r <= 4096,
{
    let y: i64 = x as i64 + 3 + (if x >= 0 {
        1
    } else {
        0
    });
    proof {
        crate::arith::lemma_pow2i_values();
    }
    shr_i64(y, 3) as i32
}

/// A vector in whole samples: row and column.
pub fn get_fullmv_from_mv(mv: Mv) -> (r: (i32, i32))
    ensures
        r.0 == full_pel(mv.row as int),
        r.1 == full_pel(mv.col as int),
        -4096 <= r.0 <= 4096,
        -4096 <= r.1 <= 4096,
{
    (full_pel_of(mv.row), full_pel_of(mv.col))
}

/// Side of a block of `2^log2` mode-info units in those units. Sizes beyond
/// 64x64 samples fall back to 16x16.
pub open spec fn block_mi(log2: int) -> int {
    if log2 <= 4 {
        pow2i(log2)
    } else {
        4
    }
}

/// Width and height of a block in samples, and in mode-info units.
pub fn tpl_block_dims(block_mis_log2: u8) -> (r: (i32, i32, i32, i32))
    ensures
        r.2 == block_mi(block_mis_log2 as int),
        r.3 == r.2,
        r.0 == 4 * r.2,
        r.1 == r.0,
        1 <= r.2 <= 16,
{
    proof {
        crate::arith::lemma_pow2i_values();
    }
    if block_mis_log2 == 0 {
        (4, 4, 1, 1)
    } else if block_mis_log2 == 1 {
        (8, 8, 2, 2)
    } else if block_mis_log2 == 3 {
        (32, 32, 8, 8)
    } else if block_mis_log2 == 4 {
        (64, 64, 16, 16)
    } else {
        (16, 16, 4, 4)
    }
}

/// A block of side `side` at a position, and the four cells of a grid of such
/// blocks that it can meet: cell `k` lies `k / 2` rows and `k % 2` columns
/// after the one that holds the block's corner.
pub open spec fn target_row(pos: int, side: int, k: int) -> int {
    (pos / side) * side + side * (k / 2)
}

pub open spec fn target_col(pos: int, side: int, k: int) -> int {
    (pos / side) * side + side * (k % 2)
}

/// The four cells that a block can meet share out its area.
pub proof fn law_overlaps_share_the_block(row: int, col: int, side: int)
    requires
        side > 0,
    ensures
        overlap_area(target_row(row, side, 0), target_col(col, side, 0), row, col, side, side)
            + overlap_area(target_row(row, side, 1), target_col(col, side, 1), row, col, side, side)
            + overlap_area(target_row(row, side, 2), target_col(col, side, 2), row, col, side, side)
            + overlap_area(target_row(row, side, 3), target_col(col, side, 3), row, col, side, side)
            == side * side,
{
    let r = row % side;
    let c = col % side;
    assert(row == (row / side) * side + r && 0 <= r < side) by (nonlinear_arith)
        requires
            side > 0,
            r == row % side,
    ;
    assert(col == (col / side) * side + c && 0 <= c < side) by (nonlinear_arith)
        requires
            side > 0,
            c == col % side,
    ;
    assert(side * 0 == 0 && side * 1 == side) by (nonlinear_arith);
    assert((side - r) * (side - c) + (side - r) * c + r * (side - c) + r * c == side * side)
        by (nonlinear_arith);
}

/// What a block passes on to the references it was predicted from.
pub struct BlockCredit {
    /// Position of the reference frame in the group.
    pub ref_frame: int,
    /// Where the prediction lies in it, in samples.
    pub row: int,
    pub col: int,
    pub side: int,
    pub dist: i64,
    pub rate: i64,
}

impl TplModel {
    /// The figures of the block at a mode-info position, located by the stride
    /// of the first frame.
    pub open spec fn block(self, mi_row: int, mi_col: int, log2: int, frame_idx: int) -> TplDepStats {
        self.frames[frame_idx].stats[grid_pos(mi_row, mi_col, self.frames[0].stride as int, log2)]
    }

    /// The reference frame that a block's reference `ref_idx` lies in, if it
    /// has one.
    pub open spec fn reference(
        self,
        mi_row: int,
        mi_col: int,
        log2: int,
        frame_idx: int,
        ref_idx: int,
    ) -> Option<int> {
        let k = self.block(mi_row, mi_col, log2, frame_idx).ref_frame_index[ref_idx];
        if k < 0 || self.frames[frame_idx].ref_map_index[k as int] < 0 {
            None
        } else {
            Some(self.frames[frame_idx].ref_map_index[k as int] as int)
        }
    }

    /// What a block passes on to reference `ref_idx`: what its prediction from
    /// the reconstruction costs over that from the source, together with the
    /// share of what already depends on it. In a compound prediction the other
    /// half takes the place of the source.
    pub open spec fn credit<D: Fn(i64, i64, i64) -> i64, R: Fn(i64, i64, i64, i32) -> i64>(
        self,
        share: D,
        rate: R,
        mi_row: int,
        mi_col: int,
        log2: int,
        frame_idx: int,
        ref_idx: int,
    ) -> BlockCredit {
        let b = self.block(mi_row, mi_col, log2, frame_idx);
        let mv = b.mv[b.ref_frame_index[ref_idx] as int];
        let srcrf_dist = b.source_dist(ref_idx);
        let srcrf_rate = b.source_rate(ref_idx);
        let side = 4 * block_mi(log2);
        let delta_rate = b.recrf_rate.wrapping_mul(16) - srcrf_rate.wrapping_mul(16);
        BlockCredit {
            ref_frame: self.reference(mi_row, mi_col, log2, frame_idx, ref_idx).unwrap(),
            row: mi_row * 4 + full_pel(mv.row as int),
            col: mi_col * 4 + full_pel(mv.col as int),
            side,
            dist: b.recrf_dist.wrapping_sub(srcrf_dist).wrapping_add(
                modelled_share(share, b.mc_dep_dist, b.recrf_dist, srcrf_dist),
            ),
            rate: (delta_rate as i64).wrapping_add(
                passed_rate(rate, b.mc_dep_rate, b.recrf_dist, srcrf_dist, (side * side) as i32),
            ),
        }
    }
}

impl BlockCredit {
    /// Cell `k` lies in the frame.
    pub open spec fn lands(self, f: TplFrameModel, k: int) -> bool {
        &&& 0 <= target_row(self.row, self.side, k) < f.mi_rows * 4
        &&& 0 <= target_col(self.col, self.side, k) < f.mi_cols * 4
    }

    /// Index of cell `k` in the frame's grid.
    pub open spec fn cell(self, f: TplFrameModel, log2: int, k: int) -> int {
        grid_pos(
            (target_row(self.row, self.side, k) / self.side) * (self.side / 4),
            (target_col(self.col, self.side, k) / self.side) * (self.side / 4),
            f.stride as int,
            log2,
        )
    }

    /// The part of `amount` that goes to cell `k`, by overlap.
    pub open spec fn part(self, amount: i64, k: int) -> i64 {
        trunc_div(
            amount.wrapping_mul(
                overlap_area(
                    target_row(self.row, self.side, k),
                    target_col(self.col, self.side, k),
                    self.row,
                    self.col,
                    self.side,
                    self.side,
                ) as i64,
            ) as int,
            self.side * self.side,
        ) as i64
    }

    /// A frame after the first `n` cells got their parts.
    pub open spec fn applied(self, f: TplFrameModel, log2: int, n: int) -> TplFrameModel
        decreases n,
    {
        if n <= 0 {
            f
        } else {
            let g = self.applied(f, log2, n - 1);
            if self.lands(f, n - 1) {
                let i = self.cell(f, log2, n - 1);
                let s = g.stats[i];
                TplFrameModel {
                    stats: g.stats.update(
                        i,
                        TplDepStats {
                            mc_dep_dist: s.mc_dep_dist.wrapping_add(self.part(self.dist, n - 1)),
                            mc_dep_rate: s.mc_dep_rate.wrapping_add(self.part(self.rate, n - 1)),
                            ..s
                        },
                    ),
                    ..g
                }
            } else {
                g
            }
        }
    }
}

impl TplModel {
    /// The model after a block passed on its costs to reference `ref_idx`.
    pub open spec fn credited<D: Fn(i64, i64, i64) -> i64, R: Fn(i64, i64, i64, i32) -> i64>(
        self,
        share: D,
        rate: R,
        mi_row: int,
        mi_col: int,
        log2: int,
        frame_idx: int,
        ref_idx: int,
    ) -> TplModel {
        match self.reference(mi_row, mi_col, log2, frame_idx, ref_idx) {
            None => self,
            Some(j) => {
                let c = self.credit(share, rate, mi_row, mi_col, log2, frame_idx, ref_idx);
                TplModel {
                    frames: self.frames.update(j, c.applied(self.frames[j], log2, 4)),
                    ..self
                }
            },
        }
    }

    /// A block can pass on its costs: it and its reference lie in the group,
    /// the cells it meets in the reference's grid, and the positions are in
    /// range.
    pub open spec fn can_credit(
        self,
        mi_row: int,
        mi_col: int,
        log2: int,
        frame_idx: int,
        ref_idx: int,
    ) -> bool {
        let stride = self.frames[0].stride as int;
        let b = self.block(mi_row, mi_col, log2, frame_idx);
        let k = b.ref_frame_index[ref_idx];
        &&& 0 <= frame_idx < self.frames.len()
        &&& 0 <= ref_idx < 2
        &&& 0 <= log2 < 32
        &&& i32::MIN <= (mi_row / pow2i(log2)) * stride <= i32::MAX
        &&& 0 <= grid_pos(mi_row, mi_col, stride, log2) < self.frames[frame_idx].stats.len()
        &&& grid_pos(mi_row, mi_col, stride, log2) <= i32::MAX
        &&& k < 0 || {
            let m = self.frames[frame_idx].ref_map_index[k as int];
            &&& k < 7
            &&& m < 0 || {
                &&& m < self.frames.len()
                &&& -0x1ff0_0000 <= mi_row <= 0x1ff0_0000
                &&& -0x1ff0_0000 <= mi_col <= 0x1ff0_0000
                &&& credit_lands(
                    self.frames[m as int],
                    log2,
                    mi_row * 4 + full_pel(b.mv[k as int].row as int),
                    mi_col * 4 + full_pel(b.mv[k as int].col as int),
                )
            }
        }
    }
}

/// The cells that a block at a position meets in a frame are cells of its
/// grid.
pub open spec fn credit_lands(f: TplFrameModel, log2: int, row: int, col: int) -> bool {
    let side = 4 * block_mi(log2);
    &&& -0x2000_0000 <= f.mi_rows < 0x2000_0000
    &&& -0x2000_0000 <= f.mi_cols < 0x2000_0000
    &&& forall|k: int|
        0 <= k < 4 && 0 <= #[trigger] target_row(row, side, k) < f.mi_rows * 4
            && 0 <= #[trigger] target_col(col, side, k) < f.mi_cols * 4 ==> {
            let r = (target_row(row, side, k) / side) * (side / 4);
            let c = (target_col(col, side, k) / side) * (side / 4);
            &&& i32::MIN <= (r / pow2i(log2)) * f.stride <= i32::MAX
            &&& 0 <= grid_pos(r, c, f.stride as int, log2) < f.stats.len()
            &&& grid_pos(r, c, f.stride as int, log2) <= i32::MAX
        }
}

proof fn lemma_target(pos: int, side: int, k: int)
    requires
        side > 0,
        0 <= k < 4,
    ensures
        pos - side < target_row(pos, side, k) <= pos + side,
        pos - side < target_col(pos, side, k) <= pos + side,
        target_row(pos, side, k) == (pos / side + k / 2) * side,
        target_col(pos, side, k) == (pos / side + k % 2) * side,
{
    let q = pos / side;
    assert(pos - side < q * side <= pos) by (nonlinear_arith)
        requires
            side > 0,
            q == pos / side,
    ;
    assert(side * (k / 2) == (k / 2) * side && side * (k % 2) == (k % 2) * side)
        by (nonlinear_arith);
    assert((q + k / 2) * side == q * side + (k / 2) * side) by (nonlinear_arith);
    assert((q + k % 2) * side == q * side + (k % 2) * side) by (nonlinear_arith);
    assert(0 <= (k / 2) * side <= side) by (nonlinear_arith)
        requires
            side > 0,
            0 <= k / 2 <= 1,
    ;
    assert(0 <= (k % 2) * side <= side) by (nonlinear_arith)
        requires
            side > 0,
            0 <= k % 2 <= 1,
    ;
}

/// `amount * overlap / pix_num` in wrapping arithmetic, rounded toward zero.
fn split_part(amount: i64, overlap: i32, pix_num: i64) -> (r: i64)
    requires
        pix_num >= 1,
    ensures
        r == trunc_div(amount.wrapping_mul(overlap as i64) as int, pix_num as int),
{
    let product: i64 = amount.wrapping_mul(overlap as i64);
    if product < 0 {
        let q: i128 = -(product as i128) / pix_num as i128;
        proof {
            let (a, b) = (-(product as int), pix_num as int);
            assert(0 <= a / b <= a) by (nonlinear_arith)
                requires
                    a >= 0,
                    b >= 1,
            ;
        }
        (-q) as i64
    } else {
        product / pix_num
    }
}

/// Give the cells of a frame that a block meets their parts of its costs.
#[verifier::spinoff_prover]
fn apply_credit(
    frame: &mut TplDepFrame,
    block_mis_log2: u8,
    row: i32,
    col: i32,
    dist: i64,
    rate: i64,
    Ghost(credit): Ghost<BlockCredit>,
)
    requires
        block_mis_log2 < 32,
        credit.row == row,
        credit.col == col,
        credit.side == 4 * block_mi(block_mis_log2 as int),
        credit.dist == dist,
        credit.rate == rate,
        -0x7fff_0000 <= row <= 0x7fff_0000,
        -0x7fff_0000 <= col <= 0x7fff_0000,
        credit_lands(old(frame)@, block_mis_log2 as int, row as int, col as int),
    ensures
        final(frame)@ == credit.applied(old(frame)@, block_mis_log2 as int, 4),
{
    let ghost f0 = frame@;
    let ghost log2 = block_mis_log2 as int;
    let (bw, bh, mi_width, mi_height) = tpl_block_dims(block_mis_log2);
    let ghost side = bw as int;
    assert(16 <= side * side <= 4096) by (nonlinear_arith)
        requires
            4 <= side <= 64,
    ;
    let pix_num: i64 = bw as i64 * bh as i64;
    let row_cell: i32 = round_floor(row, bh);
    let col_cell: i32 = round_floor(col, bw);
    for k in 0..4
        invariant
            block_mis_log2 < 32,
            log2 == block_mis_log2,
            bw == side,
            bh == side,
            side == 4 * mi_width,
            mi_height == mi_width,
            1 <= mi_width <= 16,
            mi_width == block_mi(log2),
            pix_num == side * side,
            credit.row == row,
            credit.col == col,
            credit.side == side,
            credit.dist == dist,
            credit.rate == rate,
            row_cell == row as int / side,
            col_cell == col as int / side,
            -0x7fff_0000 <= row <= 0x7fff_0000,
            -0x7fff_0000 <= col <= 0x7fff_0000,
            credit_lands(f0, log2, row as int, col as int),
            frame@ == credit.applied(f0, log2, k as int),
            frame@.stats.len() == f0.stats.len(),
            frame.stride == f0.stride,
            frame.mi_rows == f0.mi_rows,
            frame.mi_cols == f0.mi_cols,
    {
        proof {
            lemma_target(row as int, side, k as int);
            lemma_target(col as int, side, k as int);
            assert(side * side >= 16 && side * side <= 4096) by (nonlinear_arith)
                requires
                    4 <= side <= 64,
            ;
        }
        let cell_row: i64 = row_cell as i64 + k / 2;
        let cell_col: i64 = col_cell as i64 + k % 2;
        proof {
            assert(-0x8000_0000 <= cell_row <= 0x8000_0000 && -0x8000_0000 <= cell_col
                <= 0x8000_0000);
            assert(-0x80_0000_0000 <= cell_row * side <= 0x80_0000_0000 && -0x80_0000_0000
                <= cell_col * side <= 0x80_0000_0000) by (nonlinear_arith)
                requires
                    -0x8000_0000 <= cell_row <= 0x8000_0000,
                    -0x8000_0000 <= cell_col <= 0x8000_0000,
                    4 <= side <= 64,
            ;
        }
        let grid_row: i64 = cell_row * bh as i64;
        let grid_col: i64 = cell_col * bw as i64;
        assert(grid_row == target_row(row as int, side, k as int));
        assert(grid_col == target_col(col as int, side, k as int));
        if 0 <= grid_row && grid_row < frame.mi_rows as i64 * 4 && 0 <= grid_col && grid_col
            < frame.mi_cols as i64 * 4 {
            assert(credit.lands(f0, k as int));
            proof {
                let (cr, cc) = (cell_row as int, cell_col as int);
                assert((cr * side) / side == cr && (cc * side) / side == cc) by (nonlinear_arith)
                    requires
                        side >= 4,
                ;
                assert(0 <= cr <= grid_row && 0 <= cc <= grid_col) by (nonlinear_arith)
                    requires
                        side >= 4,
                        grid_row == cr * side,
                        grid_col == cc * side,
                        grid_row >= 0,
                        grid_col >= 0,
                ;
                assert(cr * mi_height * 4 == cr * side && cc * mi_width * 4 == cc * side)
                    by (nonlinear_arith)
                    requires
                        side == 4 * mi_width,
                        mi_width == mi_height,
                ;
                assert(0 <= cr * mi_height && 0 <= cc * mi_width) by (nonlinear_arith)
                    requires
                        cr >= 0,
                        cc >= 0,
                        mi_height >= 1,
                        mi_width >= 1,
                ;
                let a = shared_length(grid_row as int, row as int, side);
                let b = shared_length(grid_col as int, col as int, side);
                assert(0 <= a * b <= 4096) by (nonlinear_arith)
                    requires
                        0 <= a <= 64,
                        0 <= b <= 64,
                ;
            }
            let overlap: i32 = get_overlap_area(grid_row as i32, grid_col as i32, row, col, bw, bh);
            let ref_mi_row: i32 = (cell_row as i32) * mi_height;
            let ref_mi_col: i32 = (cell_col as i32) * mi_width;
            let des: usize = tpl_ptr_pos(ref_mi_row, ref_mi_col, frame.stride, block_mis_log2) as usize;
            assert(des == credit.cell(f0, log2, k as int));
            let mut cell: TplDepStats = frame.stats[des];
            cell.mc_dep_dist = cell.mc_dep_dist.wrapping_add(split_part(dist, overlap, pix_num));
            cell.mc_dep_rate = cell.mc_dep_rate.wrapping_add(split_part(rate, overlap, pix_num));
            frame.stats.set(des, cell);
        }
        assert(frame@ == credit.applied(f0, log2, k + 1));
    }
}

/// Two frames differ at most in what is credited to their cells.
pub open spec fn same_frame(f: TplFrameModel, g: TplFrameModel) -> bool {
    &&& g == TplFrameModel { stats: g.stats, ..f }
    &&& f.stats.len() == g.stats.len()
    &&& forall|i: int|
        0 <= i < f.stats.len() ==> #[trigger] g.stats[i] == (TplDepStats {
            mc_dep_dist: g.stats[i].mc_dep_dist,
            mc_dep_rate: g.stats[i].mc_dep_rate,
            ..f.stats[i]
        })
}

/// Two models differ at most in what is credited.
pub open spec fn same_group(a: TplModel, b: TplModel) -> bool {
    &&& b == TplModel { frames: b.frames, ..a }
    &&& a.frames.len() == b.frames.len()
    &&& forall|i: int| 0 <= i < a.frames.len() ==> same_frame(#[trigger] a.frames[i], b.frames[i])
}

proof fn lemma_applied_same(c: BlockCredit, f: TplFrameModel, log2: int, n: int)
    requires
        forall|k: int| 0 <= k < n && #[trigger] c.lands(f, k) ==> 0 <= c.cell(f, log2, k) < f.stats.len(),
    ensures
        same_frame(f, c.applied(f, log2, n)),
    decreases n,
{
    if n > 0 {
        lemma_applied_same(c, f, log2, n - 1);
        let g = c.applied(f, log2, n - 1);
        let h = c.applied(f, log2, n);
        if c.lands(f, n - 1) {
            let i = c.cell(f, log2, n - 1);
            assert forall|j: int| 0 <= j < f.stats.len() implies #[trigger] h.stats[j] == (TplDepStats {
                mc_dep_dist: h.stats[j].mc_dep_dist,
                mc_dep_rate: h.stats[j].mc_dep_rate,
                ..f.stats[j]
            }) by {
                assert(g.stats[j] == (TplDepStats {
                    mc_dep_dist: g.stats[j].mc_dep_dist,
                    mc_dep_rate: g.stats[j].mc_dep_rate,
                    ..f.stats[j]
                }));
            }
        }
    }
}

/// Passing on costs changes nothing but what is credited to the cells of the
/// reference frame.
pub proof fn law_credit_changes_dependency_only<
    D: Fn(i64, i64, i64) -> i64,
    R: Fn(i64, i64, i64, i32) -> i64,
>(
    m: TplModel,
    share: D,
    rate: R,
    mi_row: int,
    mi_col: int,
    log2: int,
    frame_idx: int,
    ref_idx: int,
)
    requires
        m.can_credit(mi_row, mi_col, log2, frame_idx, ref_idx),
    ensures
        same_group(m, m.credited(share, rate, mi_row, mi_col, log2, frame_idx, ref_idx)),
        forall|i: int|
            0 <= i < m.frames.len() && m.reference(mi_row, mi_col, log2, frame_idx, ref_idx) != Some(
                i,
            ) ==> m.credited(share, rate, mi_row, mi_col, log2, frame_idx, ref_idx).frames[i]
                == #[trigger] m.frames[i],
{
    if let Some(j) = m.reference(mi_row, mi_col, log2, frame_idx, ref_idx) {
        let c = m.credit(share, rate, mi_row, mi_col, log2, frame_idx, ref_idx);
        let f = m.frames[j];
        let mi = block_mi(log2);
        assert(mi >= 1) by {
            crate::arith::lemma_pow2i_pos(log2);
        }
        assert(c.side / 4 == mi);
        assert forall|k: int| 0 <= k < 4 && #[trigger] c.lands(f, k) implies 0 <= c.cell(f, log2, k)
            < f.stats.len() by {
            assert(0 <= target_row(c.row, c.side, k) < f.mi_rows * 4);
            assert(0 <= target_col(c.col, c.side, k) < f.mi_cols * 4);
        }
        lemma_applied_same(c, f, log2, 4);
    }
}

proof fn lemma_can_credit_same(
    a: TplModel,
    b: TplModel,
    mi_row: int,
    mi_col: int,
    log2: int,
    frame_idx: int,
    ref_idx: int,
)
    requires
        same_group(a, b),
        a.frames.len() > 0,
        a.can_credit(mi_row, mi_col, log2, frame_idx, ref_idx),
    ensures
        b.can_credit(mi_row, mi_col, log2, frame_idx, ref_idx),
{
    assert(same_frame(a.frames[0], b.frames[0]));
    assert(same_frame(a.frames[frame_idx], b.frames[frame_idx]));
    let p = grid_pos(mi_row, mi_col, a.frames[0].stride as int, log2);
    let s = b.frames[frame_idx].stats[p];
    assert(s.ref_frame_index == a.frames[frame_idx].stats[p].ref_frame_index);
    let k = s.ref_frame_index[ref_idx];
    if k >= 0 {
        let m = a.frames[frame_idx].ref_map_index[k as int];
        if m >= 0 {
            assert(same_frame(a.frames[m as int], b.frames[m as int]));
        }
    }
}

impl TplParams {
    /// Pass on the costs of a block to its reference `ref_idx`. The share of
    /// the dependent distortion and the rate that the distortions call for
    /// come from `share` and `rate`.
    pub fn tpl_model_update_b<D: Fn(i64, i64, i64) -> i64, R: Fn(i64, i64, i64, i32) -> i64>(
        &mut self,
        mi_row: i32,
        mi_col: i32,
        block_mis_log2: u8,
        frame_idx: usize,
        ref_idx: usize,
        share: &D,
        rate: &R,
    )
        requires
            is_share_model(*share),
            is_rate_model(*rate),
            old(self).frames.len() > 0,
            old(self)@.can_credit(
                mi_row as int,
                mi_col as int,
                block_mis_log2 as int,
                frame_idx as int,
                ref_idx as int,
            ),
        ensures
            final(self)@ == old(self)@.credited(
                *share,
                *rate,
                mi_row as int,
                mi_col as int,
                block_mis_log2 as int,
                frame_idx as int,
                ref_idx as int,
            ),
    {
        let ghost m0 = self@;
        let ghost log2 = block_mis_log2 as int;
        assert(m0.frames[0] == self.frames[0]@);
        assert(m0.frames[frame_idx as int] == self.frames[frame_idx as int]@);
        let stride0: i32 = self.frames[0].stride;
        let src_index: usize = tpl_ptr_pos(mi_row, mi_col, stride0, block_mis_log2) as usize;
        let this: TplDepStats = self.frames[frame_idx].stats[src_index];
        assert(this == m0.block(mi_row as int, mi_col as int, log2, frame_idx as int));
        let slot: i8 = this.ref_frame_index[ref_idx];
        if slot < 0 {
            return;
        }
        let ref_map: i32 = self.frames[frame_idx].ref_map_index[slot as usize];
        if ref_map < 0 {
            return;
        }
        let ref_frame: usize = ref_map as usize;
        assert(m0.frames[ref_frame as int] == self.frames[ref_frame as int]@);
        let (mv_row, mv_col) = get_fullmv_from_mv(this.mv[slot as usize]);
        let row: i32 = mi_row * MI_SIZE + mv_row;
        let col: i32 = mi_col * MI_SIZE + mv_col;
        let (bw, bh, _, _) = tpl_block_dims(block_mis_log2);
        assert(16 <= bw * bh <= 4096) by (nonlinear_arith)
            requires
                4 <= bw <= 64,
                bh == bw,
        ;
        let pix_num: i32 = bw * bh;
        let (srcrf_dist, srcrf_rate) = this.source_figures(ref_idx);
        assert(srcrf_dist == this.source_dist(ref_idx as int) && srcrf_rate == this.source_rate(
            ref_idx as int,
        ));
        let cur_dep_dist: i64 = this.recrf_dist.wrapping_sub(srcrf_dist);
        assert(call_requires(*share, (this.mc_dep_dist, this.recrf_dist, srcrf_dist)));
        let mc_dep_dist: i64 = share(this.mc_dep_dist, this.recrf_dist, srcrf_dist);
        assert(call_ensures(
            *share,
            (this.mc_dep_dist, this.recrf_dist, srcrf_dist),
            mc_dep_dist,
        ));
        let delta_rate: i64 = this.recrf_rate.wrapping_mul(16) as i64 - srcrf_rate.wrapping_mul(
            16,
        ) as i64;
        let mc_dep_rate: i64 = delta_rate_cost(
            this.mc_dep_rate,
            this.recrf_dist,
            srcrf_dist,
            pix_num,
            rate,
        );
        let ghost credit = m0.credit(
            *share,
            *rate,
            mi_row as int,
            mi_col as int,
            log2,
            frame_idx as int,
            ref_idx as int,
        );
        let dist_sum: i64 = cur_dep_dist.wrapping_add(mc_dep_dist);
        let rate_sum: i64 = delta_rate.wrapping_add(mc_dep_rate);
        assert(credit.dist == dist_sum);
        assert(credit.rate == rate_sum);
        apply_credit(
            &mut self.frames[ref_frame],
            block_mis_log2,
            row,
            col,
            dist_sum,
            rate_sum,
            Ghost(credit),
        );
        assert(self@.frames =~= m0.frames.update(
            ref_frame as int,
            credit.applied(m0.frames[ref_frame as int], log2, 4),
        ));
    }
}

impl TplModel {
    /// The model after a block passed on its costs to both references.
    pub open spec fn updated<D: Fn(i64, i64, i64) -> i64, R: Fn(i64, i64, i64, i32) -> i64>(
        self,
        share: D,
        rate: R,
        mi_row: int,
        mi_col: int,
        frame_idx: int,
    ) -> TplModel {
        self.credited(share, rate, mi_row, mi_col, self.log2 as int, frame_idx, 0).credited(
            share,
            rate,
            mi_row,
            mi_col,
            self.log2 as int,
            frame_idx,
            1,
        )
    }

    /// A block can pass on its costs to both references.
    pub open spec fn can_update(self, mi_row: int, mi_col: int, frame_idx: int) -> bool {
        &&& self.frames.len() > 0
        &&& self.can_credit(mi_row, mi_col, self.log2 as int, frame_idx, 0)
        &&& self.can_credit(mi_row, mi_col, self.log2 as int, frame_idx, 1)
    }

    /// The first `n` blocks of a row, `step` units apart, passed on their
    /// costs.
    pub open spec fn row_synthesized<D: Fn(i64, i64, i64) -> i64, R: Fn(i64, i64, i64, i32) -> i64>(
        self,
        share: D,
        rate: R,
        mi_row: int,
        step: int,
        frame_idx: int,
        n: int,
    ) -> TplModel
        decreases n,
    {
        if n <= 0 {
            self
        } else {
            self.row_synthesized(share, rate, mi_row, step, frame_idx, n - 1).updated(
                share,
                rate,
                mi_row,
                (n - 1) * step,
                frame_idx,
            )
        }
    }

    /// The first `rows` rows of `cols` blocks passed on their costs.
    pub open spec fn synthesized<D: Fn(i64, i64, i64) -> i64, R: Fn(i64, i64, i64, i32) -> i64>(
        self,
        share: D,
        rate: R,
        step: int,
        frame_idx: int,
        rows: int,
        cols: int,
    ) -> TplModel
        decreases rows,
    {
        if rows <= 0 {
            self
        } else {
            self.synthesized(share, rate, step, frame_idx, rows - 1, cols).row_synthesized(
                share,
                rate,
                (rows - 1) * step,
                step,
                frame_idx,
                cols,
            )
        }
    }
}

/// Number of steps of `step` from 0 that stay below `n`.
pub open spec fn steps_below(n: int, step: int) -> int {
    if n <= 0 {
        0
    } else {
        (n + step - 1) / step
    }
}

/// Mode-info units to a block of the motion search.
pub open spec fn search_step(bsize: int) -> int {
    if bsize == 4 {
        1
    } else if bsize == 8 {
        2
    } else if bsize == 32 {
        8
    } else if bsize == 64 {
        16
    } else {
        4
    }
}

proof fn lemma_same_group_chain(a: TplModel, b: TplModel, c: TplModel)
    requires
        same_group(a, b),
        same_group(b, c),
    ensures
        same_group(a, c),
{
    assert forall|i: int| 0 <= i < a.frames.len() implies same_frame(
        #[trigger] a.frames[i],
        c.frames[i],
    ) by {
        assert(same_frame(a.frames[i], b.frames[i]));
        assert(same_frame(b.frames[i], c.frames[i]));
        let (f, g, h) = (a.frames[i], b.frames[i], c.frames[i]);
        assert forall|j: int| 0 <= j < f.stats.len() implies #[trigger] h.stats[j] == (TplDepStats {
            mc_dep_dist: h.stats[j].mc_dep_dist,
            mc_dep_rate: h.stats[j].mc_dep_rate,
            ..f.stats[j]
        }) by {
            assert(g.stats[j] == (TplDepStats {
                mc_dep_dist: g.stats[j].mc_dep_dist,
                mc_dep_rate: g.stats[j].mc_dep_rate,
                ..f.stats[j]
            }));
        }
    }
}

proof fn lemma_updated_same<D: Fn(i64, i64, i64) -> i64, R: Fn(i64, i64, i64, i32) -> i64>(
    m: TplModel,
    share: D,
    rate: R,
    mi_row: int,
    mi_col: int,
    frame_idx: int,
)
    requires
        m.can_update(mi_row, mi_col, frame_idx),
    ensures
        same_group(m, m.updated(share, rate, mi_row, mi_col, frame_idx)),
        m.credited(share, rate, mi_row, mi_col, m.log2 as int, frame_idx, 0).can_credit(
            mi_row,
            mi_col,
            m.log2 as int,
            frame_idx,
            1,
        ),
{
    let log2 = m.log2 as int;
    let a = m.credited(share, rate, mi_row, mi_col, log2, frame_idx, 0);
    law_credit_changes_dependency_only(m, share, rate, mi_row, mi_col, log2, frame_idx, 0);
    lemma_can_credit_same(m, a, mi_row, mi_col, log2, frame_idx, 1);
    law_credit_changes_dependency_only(a, share, rate, mi_row, mi_col, log2, frame_idx, 1);
    lemma_same_group_chain(
        m,
        a,
        a.credited(share, rate, mi_row, mi_col, log2, frame_idx, 1),
    );
}

proof fn lemma_can_update_same(a: TplModel, b: TplModel, mi_row: int, mi_col: int, frame_idx: int)
    requires
        same_group(a, b),
        a.can_update(mi_row, mi_col, frame_idx),
    ensures
        b.can_update(mi_row, mi_col, frame_idx),
{
    lemma_can_credit_same(a, b, mi_row, mi_col, a.log2 as int, frame_idx, 0);
    lemma_can_credit_same(a, b, mi_row, mi_col, a.log2 as int, frame_idx, 1);
}

proof fn lemma_same_group_reflexive(a: TplModel)
    ensures
        same_group(a, a),
{
}

pub proof fn lemma_steps(n: int, step: int, k: int)
    requires
        step >= 1,
        0 <= k,
    ensures
        k * step < n <==> k < steps_below(n, step),
        steps_below(n, step) >= 0,
{
    if n > 0 {
        let q = (n + step - 1) / step;
        assert(q * step >= n && (q - 1) * step < n && q >= 1) by (nonlinear_arith)
            requires
                q == (n + step - 1) / step,
                step >= 1,
                n >= 1,
        ;
        if k < q {
            assert(k * step <= (q - 1) * step) by (nonlinear_arith)
                requires
                    k <= q - 1,
                    step >= 1,
            ;
        } else {
            assert(k * step >= q * step) by (nonlinear_arith)
                requires
                    k >= q,
                    step >= 1,
            ;
        }
    } else {
        assert(k * step >= 0) by (nonlinear_arith)
            requires
                k >= 0,
                step >= 1,
        ;
    }
}

impl TplParams {
    /// Pass on the costs of a block to both of its references.
    pub fn tpl_model_update<D: Fn(i64, i64, i64) -> i64, R: Fn(i64, i64, i64, i32) -> i64>(
        &mut self,
        mi_row: i32,
        mi_col: i32,
        frame_idx: usize,
        share: &D,
        rate: &R,
    )
        requires
            is_share_model(*share),
            is_rate_model(*rate),
            old(self)@.can_update(mi_row as int, mi_col as int, frame_idx as int),
        ensures
            final(self)@ == old(self)@.updated(
                *share,
                *rate,
                mi_row as int,
                mi_col as int,
                frame_idx as int,
            ),
    {
        proof {
            lemma_updated_same(
                self@,
                *share,
                *rate,
                mi_row as int,
                mi_col as int,
                frame_idx as int,
            );
            law_credit_changes_dependency_only(
                self@,
                *share,
                *rate,
                mi_row as int,
                mi_col as int,
                self@.log2 as int,
                frame_idx as int,
                0,
            );
        }
        let shift: u8 = self.tpl_stats_block_mis_log2;
        self.tpl_model_update_b(mi_row, mi_col, shift, frame_idx, 0, share, rate);
        assert(self@.frames.len() == self.frames.len());
        self.tpl_model_update_b(mi_row, mi_col, shift, frame_idx, 1, share, rate);
    }

    /// Pass on the costs of all blocks of a frame, row by row. The blocks are
    /// those of the motion search; the first frame of a group has nothing to
    /// pass on to.
    #[verifier::spinoff_prover]
    pub fn mc_flow_synthesizer<D: Fn(i64, i64, i64) -> i64, R: Fn(i64, i64, i64, i32) -> i64>(
        &mut self,
        frame_idx: usize,
        mi_rows: i32,
        mi_cols: i32,
        share: &D,
        rate: &R,
    )
        requires
            is_share_model(*share),
            is_rate_model(*rate),
            frame_idx != 0 ==> mi_rows <= 0x7fff_ff00 && mi_cols <= 0x7fff_ff00,
            frame_idx != 0 ==> forall|r: int, c: int|
                0 <= r < mi_rows && 0 <= c < mi_cols && r % search_step(
                    old(self)@.bsize as int,
                ) == 0 && c % search_step(old(self)@.bsize as int) == 0
                    ==> #[trigger] old(self)@.can_update(r, c, frame_idx as int),
        ensures
            final(self)@ == if frame_idx == 0 {
                old(self)@
            } else {
                let step = search_step(old(self)@.bsize as int);
                old(self)@.synthesized(
                    *share,
                    *rate,
                    step,
                    frame_idx as int,
                    steps_below(mi_rows as int, step),
                    steps_below(mi_cols as int, step),
                )
            },
            same_group(old(self)@, final(self)@),
    {
        let ghost m0 = self@;
        proof {
            lemma_same_group_reflexive(m0);
        }
        if frame_idx == 0 {
            return;
        }
        let log2: u8 = if self.tpl_bsize_1d == 4 {
            0
        } else if self.tpl_bsize_1d == 8 {
            1
        } else if self.tpl_bsize_1d == 32 {
            3
        } else if self.tpl_bsize_1d == 64 {
            4
        } else {
            2
        };
        proof {
            crate::arith::lemma_pow2i_values();
        }
        let (_, _, mi_width, mi_height) = tpl_block_dims(log2);
        let ghost step = search_step(m0.bsize as int);
        let ghost rows = steps_below(mi_rows as int, step);
        let ghost cols = steps_below(mi_cols as int, step);
        let ghost fi = frame_idx as int;
        let ghost mut i: int = 0;
        proof {
            lemma_steps(mi_rows as int, step, 0);
            lemma_steps(mi_cols as int, step, 0);
        }
        let mut mi_row: i32 = 0;
        while mi_row < mi_rows
            invariant
                is_share_model(*share),
                is_rate_model(*rate),
                mi_rows <= 0x7fff_ff00,
                mi_cols <= 0x7fff_ff00,
                mi_width == step,
                mi_height == step,
                1 <= step <= 16,
                step == search_step(m0.bsize as int),
                rows == steps_below(mi_rows as int, step),
                cols == steps_below(mi_cols as int, step),
                fi == frame_idx,
                forall|r: int, c: int|
                    0 <= r < mi_rows && 0 <= c < mi_cols && r % step == 0 && c % step == 0
                        ==> #[trigger] m0.can_update(r, c, fi),
                0 <= i <= rows,
                mi_row == i * step,
                0 <= mi_row,
                same_group(m0, self@),
                self@ == m0.synthesized(*share, *rate, step, fi, i, cols),
            decreases mi_rows + 16 - mi_row,
        {
            let ghost m1 = self@;
            let ghost mut j: int = 0;
            proof {
                lemma_steps(mi_rows as int, step, i);
                lemma_steps(mi_cols as int, step, 0);
                lemma_same_group_reflexive(m1);
            }
            let mut mi_col: i32 = 0;
            while mi_col < mi_cols
                invariant
                    is_share_model(*share),
                    is_rate_model(*rate),
                    mi_row < mi_rows,
                    mi_cols <= 0x7fff_ff00,
                    mi_width == step,
                    1 <= step <= 16,
                    cols == steps_below(mi_cols as int, step),
                    fi == frame_idx,
                    forall|r: int, c: int|
                        0 <= r < mi_rows && 0 <= c < mi_cols && r % step == 0 && c % step == 0
                            ==> #[trigger] m0.can_update(r, c, fi),
                    mi_row == i * step,
                    0 <= mi_row,
                    0 <= j <= cols,
                    mi_col == j * step,
                    0 <= mi_col,
                    same_group(m0, m1),
                    same_group(m1, self@),
                    self@ == m1.row_synthesized(*share, *rate, mi_row as int, step, fi, j),
                decreases mi_cols + 16 - mi_col,
            {
                proof {
                    lemma_steps(mi_cols as int, step, j);
                    assert((i * step) % step == 0 && (j * step) % step == 0) by (nonlinear_arith)
                        requires
                            step >= 1,
                    ;
                    assert(m0.can_update(mi_row as int, mi_col as int, fi));
                    lemma_same_group_chain(m0, m1, self@);
                    lemma_can_update_same(m0, self@, mi_row as int, mi_col as int, fi);
                    lemma_updated_same(
                        self@,
                        *share,
                        *rate,
                        mi_row as int,
                        mi_col as int,
                        fi,
                    );
                    lemma_same_group_chain(
                        m1,
                        self@,
                        self@.updated(*share, *rate, mi_row as int, mi_col as int, fi),
                    );
                }
                self.tpl_model_update(mi_row, mi_col, frame_idx, share, rate);
                proof {
                    assert((j + 1) * step == j * step + step) by (nonlinear_arith);
                    j = j + 1;
                }
                mi_col = mi_col + mi_width;
            }
            proof {
                lemma_steps(mi_cols as int, step, j);
                lemma_same_group_chain(m0, m1, self@);
                assert((i + 1) * step == i * step + step) by (nonlinear_arith);
                i = i + 1;
            }
            mi_row = mi_row + mi_height;
        }
        proof {
            lemma_steps(mi_rows as int, step, i);
        }
    }
}

/// A frame's grid has a cell for every block of `2^log2` mode-info units.
pub open spec fn covers_frame(f: TplFrameModel, log2: int) -> bool {
    &&& f.mi_rows < 0x1ff0_0000
    &&& f.mi_cols < 0x1ff0_0000
    &&& -0x2000_0000 <= f.mi_rows
    &&& -0x2000_0000 <= f.mi_cols
    &&& steps_below(f.mi_cols as int, pow2i(log2)) <= f.stride
    &&& steps_below(f.mi_rows as int, pow2i(log2)) * f.stride <= f.stats.len() <= i32::MAX
}

/// The frames of a group have one size and full grids, and their cells refer
/// to frames of the group.
pub open spec fn consistent_group(m: TplModel) -> bool {
    &&& m.log2 <= 4
    &&& m.frames.len() > 0
    &&& forall|i: int|
        0 <= i < m.frames.len() ==> {
            let f = #[trigger] m.frames[i];
            &&& covers_frame(f, m.log2 as int)
            &&& f.stride == m.frames[0].stride
            &&& f.mi_rows == m.frames[0].mi_rows
            &&& f.mi_cols == m.frames[0].mi_cols
            &&& forall|j: int| 0 <= j < 8 ==> #[trigger] f.ref_map_index[j] < m.frames.len()
            &&& forall|j: int|
                0 <= j < f.stats.len() ==> (#[trigger] f.stats[j]).ref_frame_index[0] < 7
                    && f.stats[j].ref_frame_index[1] < 7
        }
}

proof fn lemma_cell_in_grid(f: TplFrameModel, log2: int, q: int, c: int)
    requires
        covers_frame(f, log2),
        0 <= log2,
        0 <= q < steps_below(f.mi_rows as int, pow2i(log2)),
        0 <= c < steps_below(f.mi_cols as int, pow2i(log2)),
    ensures
        0 <= q * f.stride <= i32::MAX,
        0 <= q * f.stride + c < f.stats.len(),
{
    let rows = steps_below(f.mi_rows as int, pow2i(log2));
    let stride = f.stride as int;
    assert(0 <= q * stride && q * stride + stride <= rows * stride) by (nonlinear_arith)
        requires
            0 <= q <= rows - 1,
            stride >= 0,
    ;
}

proof fn lemma_lands(f: TplFrameModel, log2: int, row: int, col: int)
    requires
        covers_frame(f, log2),
        0 <= log2 <= 4,
    ensures
        credit_lands(f, log2, row, col),
{
    let p = pow2i(log2);
    crate::arith::lemma_pow2i_values();
    let side = 4 * p;
    assert forall|k: int|
        0 <= k < 4 && 0 <= #[trigger] target_row(row, side, k) < f.mi_rows * 4
            && 0 <= #[trigger] target_col(col, side, k) < f.mi_cols * 4 implies {
        let r = (target_row(row, side, k) / side) * (side / 4);
        let c = (target_col(col, side, k) / side) * (side / 4);
        &&& i32::MIN <= (r / p) * f.stride <= i32::MAX
        &&& 0 <= grid_pos(r, c, f.stride as int, log2) < f.stats.len()
        &&& grid_pos(r, c, f.stride as int, log2) <= i32::MAX
    } by {
        lemma_target(row, side, k);
        lemma_target(col, side, k);
        let q = row / side + k / 2;
        let t = col / side + k % 2;
        assert((q * side) / side == q && (t * side) / side == t && (q * p) / p == q && (t * p) / p
            == t) by (nonlinear_arith)
            requires
                p >= 1,
                side == 4 * p,
        ;
        assert(q >= 0 && t >= 0 && q * p < f.mi_rows && t * p < f.mi_cols) by (nonlinear_arith)
            requires
                p >= 1,
                side == 4 * p,
                0 <= q * side < f.mi_rows * 4,
                0 <= t * side < f.mi_cols * 4,
        ;
        lemma_steps(f.mi_rows as int, p, q);
        lemma_steps(f.mi_cols as int, p, t);
        lemma_cell_in_grid(f, log2, q, t);
    }
}

/// In a consistent group every block inside the frame can pass on its costs.
pub proof fn law_consistent_group_updates(m: TplModel, mi_row: int, mi_col: int, frame_idx: int)
    requires
        consistent_group(m),
        0 <= frame_idx < m.frames.len(),
        0 <= mi_row < m.frames[0].mi_rows,
        0 <= mi_col < m.frames[0].mi_cols,
    ensures
        m.can_update(mi_row, mi_col, frame_idx),
{
    let log2 = m.log2 as int;
    let p = pow2i(log2);
    crate::arith::lemma_pow2i_values();
    let f = m.frames[frame_idx];
    assert(covers_frame(f, log2));
    let q = mi_row / p;
    let t = mi_col / p;
    assert(0 <= q && 0 <= t && q * p <= mi_row && t * p <= mi_col) by (nonlinear_arith)
        requires
            p >= 1,
            mi_row >= 0,
            mi_col >= 0,
            q == mi_row / p,
            t == mi_col / p,
    ;
    lemma_steps(f.mi_rows as int, p, q);
    lemma_steps(f.mi_cols as int, p, t);
    lemma_cell_in_grid(f, log2, q, t);
    let b = m.block(mi_row, mi_col, log2, frame_idx);
    assert(b == f.stats[grid_pos(mi_row, mi_col, f.stride as int, log2)]);
    assert forall|i: int| 0 <= i < 2 implies #[trigger] m.can_credit(
        mi_row,
        mi_col,
        log2,
        frame_idx,
        i,
    ) by {
        let k = b.ref_frame_index[i];
        if k >= 0 {
            let j = f.ref_map_index[k as int];
            if j >= 0 {
                assert(j < m.frames.len());
                assert(covers_frame(m.frames[j as int], log2));
                lemma_lands(
                    m.frames[j as int],
                    log2,
                    mi_row * 4 + full_pel(b.mv[k as int].row as int),
                    mi_col * 4 + full_pel(b.mv[k as int].col as int),
                );
            }
        }
    }
    assert(m.can_credit(mi_row, mi_col, log2, frame_idx, 0));
    assert(m.can_credit(mi_row, mi_col, log2, frame_idx, 1));
}

impl TplParams {
    /// One grid cell to 16x16 samples, and motion search in blocks of that
    /// size.
    pub fn set_tpl_stats_block_size(&mut self)
        ensures
            final(self)@ == (TplModel { log2: 2, bsize: 16, ..old(self)@ }),
    {
        self.tpl_stats_block_mis_log2 = 2;
        self.tpl_bsize_1d = 16;
    }

    /// The figures of a frame can be used: the group is complete, the position
    /// is within the model's reach, and the frame was computed.
    #[must_use]
    pub fn tpl_stats_ready(&self, gf_frame_index: i32) -> (r: bool)
        requires
            self.ready ==> gf_frame_index >= 0,
        ensures
            r == (self.ready && gf_frame_index < MAX_TPL_FRAME_IDX && gf_frame_index
                < self.frames.len() && self@.frames[gf_frame_index as int].is_valid),
    {
        if !self.ready {
            return false;
        }
        if gf_frame_index >= MAX_TPL_FRAME_IDX {
            return false;
        }
        let i: usize = gf_frame_index as usize;
        i < self.frames.len() && self.frames[i].is_valid
    }

    /// Reset the group: nothing is ready, and all cells are cleared.
    pub fn init_tpl_stats(&mut self)
        ensures
            final(self)@ == (TplModel {
                ready: false,
                log2: 2,
                bsize: 16,
                frames: final(self)@.frames,
                ..old(self)@
            }),
            final(self).frames.len() == old(self).frames.len(),
            forall|i: int|
                0 <= i < old(self).frames.len() ==> {
                    let f = old(self)@.frames[i];
                    let g = #[trigger] final(self)@.frames[i];
                    &&& g == (TplFrameModel { is_valid: false, stats: g.stats, ..f })
                    &&& g.stats.len() == f.stats.len()
                    &&& forall|j: int| 0 <= j < g.stats.len() ==> (#[trigger] g.stats[j]).cleared()
                },
    {
        let ghost m0 = self@;
        self.ready = false;
        self.set_tpl_stats_block_size();
        let n: usize = self.frames.len();
        for i in 0..n
            invariant
                n == m0.frames.len(),
                self@ == (TplModel {
                    ready: false,
                    log2: 2,
                    bsize: 16,
                    frames: self@.frames,
                    ..m0
                }),
                self.frames.len() == n,
                forall|k: int| i <= k < n ==> #[trigger] self@.frames[k] == m0.frames[k],
                forall|k: int|
                    0 <= k < i ==> {
                        let f = m0.frames[k];
                        let g = #[trigger] self@.frames[k];
                        &&& g == (TplFrameModel { is_valid: false, stats: g.stats, ..f })
                        &&& g.stats.len() == f.stats.len()
                        &&& forall|j: int|
                            0 <= j < g.stats.len() ==> (#[trigger] g.stats[j]).cleared()
                    },
        {
            let ghost before = self@;
            assert(before.frames[i as int] == self.frames[i as int]@);
            clear_frame(&mut self.frames[i]);
            assert(self@.frames[i as int] == self.frames[i as int]@);
            assert forall|k: int| 0 <= k < n && k != i implies #[trigger] self@.frames[k]
                == before.frames[k] by {
                assert(self.frames[k]@ == before.frames[k]);
            }
        }
    }
}

fn clear_frame(frame: &mut TplDepFrame)
    ensures
        final(frame)@ == (TplFrameModel {
            is_valid: false,
            stats: final(frame)@.stats,
            ..old(frame)@
        }),
        final(frame).stats.len() == old(frame).stats.len(),
        forall|j: int| 0 <= j < final(frame).stats.len() ==> (#[trigger] final(frame)@.stats[j]).cleared(),
{
    let ghost f0 = frame@;
    frame.is_valid = false;
    let n: usize = frame.stats.len();
    for j in 0..n
        invariant
            frame@ == (TplFrameModel { is_valid: false, stats: frame@.stats, ..f0 }),
            frame.stats.len() == n,
            n == f0.stats.len(),
            forall|k: int| 0 <= k < j ==> (#[trigger] frame@.stats[k]).cleared(),
    {
        frame.stats.set(j, TplDepStats::default());
    }
}

/// The larger of 1 and a value.
pub open spec fn floored64(a: i64) -> i64 {
    if a < 1 {
        1
    } else {
        a
    }
}

pub open spec fn floored32(a: i32) -> i32 {
    if a < 1 {
        1
    } else {
        a
    }
}

fn at_least_one64(a: i64) -> (r: i64)
    ensures
        r == floored64(a),
{
    if a < 1 {
        1
    } else {
        a
    }
}

fn at_least_one32(a: i32) -> (r: i32)
    ensures
        r == floored32(a),
{
    if a < 1 {
        1
    } else {
        a
    }
}

/// A block's result as it is stored: its costs, its distortions and rates
/// against the references, and the squared error against the source reference
/// are at least 1.
pub open spec fn is_stored(s: TplDepStats, r: TplDepStats) -> bool {
    &&& r == TplDepStats {
        intra_cost: floored32(s.intra_cost),
        inter_cost: floored32(s.inter_cost),
        srcrf_dist: floored64(s.srcrf_dist),
        srcrf_sse: floored64(s.srcrf_sse),
        recrf_dist: floored64(s.recrf_dist),
        srcrf_rate: floored32(s.srcrf_rate),
        recrf_rate: floored32(s.recrf_rate),
        cmp_recrf_dist: r.cmp_recrf_dist,
        cmp_recrf_rate: r.cmp_recrf_rate,
        ..s
    }
    &&& r.cmp_recrf_dist[0] == floored64(s.cmp_recrf_dist[0])
    &&& r.cmp_recrf_dist[1] == floored64(s.cmp_recrf_dist[1])
    &&& r.cmp_recrf_rate[0] == floored32(s.cmp_recrf_rate[0])
    &&& r.cmp_recrf_rate[1] == floored32(s.cmp_recrf_rate[1])
}

fn to_store(src: &TplDepStats) -> (r: TplDepStats)
    ensures
        is_stored(*src, r),
{
    let mut cell: TplDepStats = *src;
    cell.intra_cost = at_least_one32(cell.intra_cost);
    cell.inter_cost = at_least_one32(cell.inter_cost);
    cell.srcrf_dist = at_least_one64(cell.srcrf_dist);
    cell.srcrf_sse = at_least_one64(cell.srcrf_sse);
    cell.recrf_dist = at_least_one64(cell.recrf_dist);
    cell.srcrf_rate = at_least_one32(cell.srcrf_rate);
    cell.recrf_rate = at_least_one32(cell.recrf_rate);
    cell.cmp_recrf_dist = [
        at_least_one64(src.cmp_recrf_dist[0]),
        at_least_one64(src.cmp_recrf_dist[1]),
    ];
    cell.cmp_recrf_rate = [
        at_least_one32(src.cmp_recrf_rate[0]),
        at_least_one32(src.cmp_recrf_rate[1]),
    ];
    cell
}

/// A mode-info unit has a cell in a grid of `len` cells.
pub open spec fn in_grid(mi_row: int, mi_col: int, stride: int, log2: int, len: int) -> bool {
    &&& 0 <= log2 < 32
    &&& i32::MIN <= (mi_row / pow2i(log2)) * stride <= i32::MAX
    &&& 0 <= grid_pos(mi_row, mi_col, stride, log2) < len
    &&& grid_pos(mi_row, mi_col, stride, log2) <= i32::MAX
}

impl TplParams {
    /// Write a block's result into the grid, with its figures at least 1.
    pub fn tpl_model_store(
        grid: &mut [TplDepStats],
        mi_row: i32,
        mi_col: i32,
        stride: i32,
        src: &TplDepStats,
        block_mis_log2: u8,
    )
        requires
            in_grid(
                mi_row as int,
                mi_col as int,
                stride as int,
                block_mis_log2 as int,
                old(grid)@.len() as int,
            ),
        ensures
            ({
                let i = grid_pos(mi_row as int, mi_col as int, stride as int, block_mis_log2 as int);
                &&& is_stored(*src, final(grid)@[i])
                &&& final(grid)@ == old(grid)@.update(i, final(grid)@[i])
            }),
    {
        let index: usize = tpl_ptr_pos(mi_row, mi_col, stride, block_mis_log2) as usize;
        grid[index] = to_store(src);
    }
}

impl Default for TplDepFrame {
    fn default() -> (r: Self)
        ensures
            r.stats@.len() == 0,
            !r.is_valid,
            r.stride == 0,
            r.width == 0,
            r.height == 0,
            r.mi_rows == 0,
            r.mi_cols == 0,
            r.base_rdmult == 0,
            r.frame_display_index == 0,
            !r.use_pred_sad,
            forall|i: int| 0 <= i < 8 ==> #[trigger] r.ref_map_index[i] == 0,
    {
        TplDepFrame {
            is_valid: false,
            stats: Vec::new(),
            stride: 0,
            width: 0,
            height: 0,
            mi_rows: 0,
            mi_cols: 0,
            base_rdmult: 0,
            frame_display_index: 0,
            use_pred_sad: false,
            ref_map_index: [0; 8],
        }
    }
}

impl Default for TplParams {
    fn default() -> (r: Self)
        ensures
            !r.ready,
            r.tpl_stats_block_mis_log2 == 0,
            r.tpl_bsize_1d == 0,
            r.frames@.len() == 0,
            r.frame_idx == 0,
    {
        TplParams {
            ready: false,
            tpl_stats_block_mis_log2: 0,
            tpl_bsize_1d: 0,
            frames: Vec::new(),
            frame_idx: 0,
        }
    }
}

/// The vector of a cell: that of its first reference.
pub open spec fn cell_mv(s: TplDepStats) -> Mv {
    s.mv[s.ref_frame_index[0] as int]
}

/// Sum of the magnitudes of a vector's components.
pub open spec fn mv_size(m: Mv) -> int {
    abs_int(m.row as int) + abs_int(m.col as int)
}

/// Component-wise difference.
pub open spec fn mv_minus(a: Mv, b: Mv) -> Mv {
    Mv { row: (a.row - b.row) as i16, col: (a.col - b.col) as i16 }
}

/// The difference fits a vector.
pub open spec fn mv_minus_fits(a: Mv, b: Mv) -> bool {
    &&& i16::MIN <= a.row - b.row <= i16::MAX
    &&& i16::MIN <= a.col - b.col <= i16::MAX
}

/// What is coded of a vector: its difference to the neighbour above or to the
/// left, whichever is strictly smaller than the other and than the vector
/// itself; else the vector.
pub open spec fn mv_residual(current: Mv, up: Option<Mv>, left: Option<Mv>) -> Mv {
    let up_size = match up {
        Some(u) => mv_size(mv_minus(current, u)),
        None => i32::MAX as int,
    };
    let left_size = match left {
        Some(l) => mv_size(mv_minus(current, l)),
        None => i32::MAX as int,
    };
    if up_size < left_size && up_size < mv_size(current) {
        mv_minus(current, up.unwrap())
    } else if left_size < up_size && left_size < mv_size(current) {
        mv_minus(current, left.unwrap())
    } else {
        current
    }
}

/// A cell of the frame holds a vector.
pub open spec fn has_mv(f: TplFrameModel, row: int, col: int, stride: int, log2: int) -> bool {
    &&& in_grid(row, col, stride, log2, f.stats.len() as int)
    &&& 0 <= f.stats[grid_pos(row, col, stride, log2)].ref_frame_index[0] < 7
}

pub open spec fn mv_at(f: TplFrameModel, row: int, col: int, stride: int, log2: int) -> Mv {
    cell_mv(f.stats[grid_pos(row, col, stride, log2)])
}

/// The vectors of a cell and of its neighbours are there, and their
/// differences fit.
pub open spec fn has_residual(
    f: TplFrameModel,
    row: int,
    col: int,
    step: int,
    stride: int,
    log2: int,
) -> bool {
    &&& has_mv(f, row, col, stride, log2)
    &&& row - step >= 0 ==> has_mv(f, row - step, col, stride, log2) && mv_minus_fits(
        mv_at(f, row, col, stride, log2),
        mv_at(f, row - step, col, stride, log2),
    )
    &&& col - step >= 0 ==> has_mv(f, row, col - step, stride, log2) && mv_minus_fits(
        mv_at(f, row, col, stride, log2),
        mv_at(f, row, col - step, stride, log2),
    )
}

/// What is coded of the vector of a cell.
pub open spec fn residual_at(
    f: TplFrameModel,
    row: int,
    col: int,
    step: int,
    stride: int,
    log2: int,
) -> Mv {
    mv_residual(
        mv_at(f, row, col, stride, log2),
        if row - step >= 0 {
            Some(mv_at(f, row - step, col, stride, log2))
        } else {
            None
        },
        if col - step >= 0 {
            Some(mv_at(f, row, col - step, stride, log2))
        } else {
            None
        },
    )
}

fn size_of_mv(m: Mv) -> (r: i32)
    ensures
        r == mv_size(m),
        0 <= r <= 0x1_0000,
{
    let row: i32 = m.row as i32;
    let col: i32 = m.col as i32;
    (if row < 0 {
        -row
    } else {
        row
    }) + (if col < 0 {
        -col
    } else {
        col
    })
}

impl TplParams {
    fn vector_at(tpl_frame: &TplDepFrame, row: i32, col: i32, stride: i32, right_shift: u8) -> (r: Mv)
        requires
            has_mv(tpl_frame@, row as int, col as int, stride as int, right_shift as int),
        ensures
            r == mv_at(tpl_frame@, row as int, col as int, stride as int, right_shift as int),
    {
        let i: usize = tpl_ptr_pos(row, col, stride, right_shift) as usize;
        let s: TplDepStats = tpl_frame.stats[i];
        s.mv[s.ref_frame_index[0] as usize]
    }

    /// What is coded of the vector of a cell, `step` mode-info units from its
    /// neighbours.
    #[must_use]
    pub fn compute_mv_difference(
        tpl_frame: &TplDepFrame,
        row: i32,
        col: i32,
        step: i32,
        tpl_stride: i32,
        right_shift: u8,
    ) -> (r: Mv)
        requires
            row - step >= i32::MIN,
            row - step <= i32::MAX,
            col - step >= i32::MIN,
            col - step <= i32::MAX,
            has_residual(
                tpl_frame@,
                row as int,
                col as int,
                step as int,
                tpl_stride as int,
                right_shift as int,
            ),
        ensures
            r == residual_at(
                tpl_frame@,
                row as int,
                col as int,
                step as int,
                tpl_stride as int,
                right_shift as int,
            ),
    {
        let current: Mv = Self::vector_at(tpl_frame, row, col, tpl_stride, right_shift);
        let magnitude: i32 = size_of_mv(current);
        let mut up_error: i32 = i32::MAX;
        let mut up_diff: Mv = Mv::default();
        if row - step >= 0 {
            let up: Mv = Self::vector_at(tpl_frame, row - step, col, tpl_stride, right_shift);
            up_diff = Mv { row: current.row - up.row, col: current.col - up.col };
            up_error = size_of_mv(up_diff);
        }
        let mut left_error: i32 = i32::MAX;
        let mut left_diff: Mv = Mv::default();
        if col - step >= 0 {
            let left: Mv = Self::vector_at(tpl_frame, row, col - step, tpl_stride, right_shift);
            left_diff = Mv { row: current.row - left.row, col: current.col - left.col };
            left_error = size_of_mv(left_diff);
        }
        if up_error < left_error && up_error < magnitude {
            up_diff
        } else if left_error < up_error && left_error < magnitude {
            left_diff
        } else {
            current
        }
    }
}

/// A coded vector is never larger than the vector itself.
pub proof fn law_residual_is_no_larger(current: Mv, up: Option<Mv>, left: Option<Mv>)
    ensures
        mv_size(mv_residual(current, up, left)) <= mv_size(current),
{
}

/// Number of bins of a vector histogram.
pub const MV_BINS: usize = 500;

/// Histogram of what is coded of a frame's vectors. Both counts go by the row
/// component, with what is negative in the first bin and what is large in the
/// last.
pub struct MvHistogram {
    pub count_row: Vec<i32>,
    pub count_col: Vec<i32>,
    /// Number of vectors.
    pub n: i32,
}

/// The bin of the cell in row `i` and column `j` of the grid.
pub open spec fn bin_at(f: TplFrameModel, log2: int, i: int, j: int) -> int {
    let step = pow2i(log2);
    let row = residual_at(f, i * step, j * step, step, f.stride as int, log2).row as int;
    min_int(max_int(row, 0), 499)
}

/// Number of cells in bin `b` among the first `n` of row `i`.
pub open spec fn bin_count_in_row(f: TplFrameModel, log2: int, b: int, i: int, n: int) -> int
    decreases n,
{
    if n <= 0 {
        0
    } else {
        bin_count_in_row(f, log2, b, i, n - 1) + (if bin_at(f, log2, i, n - 1) == b {
            1int
        } else {
            0
        })
    }
}

/// Number of cells in bin `b` among the first `rows` rows of `cols` cells.
pub open spec fn bin_count(f: TplFrameModel, log2: int, b: int, rows: int, cols: int) -> int
    decreases rows,
{
    if rows <= 0 {
        0
    } else {
        bin_count(f, log2, b, rows - 1, cols) + bin_count_in_row(f, log2, b, rows - 1, cols)
    }
}

/// The histogram of a frame is defined.
pub open spec fn has_histogram(f: TplFrameModel, log2: int) -> bool {
    let step = pow2i(log2);
    &&& 0 <= log2 <= 16
    &&& f.mi_rows <= 0x7fff_0000
    &&& f.mi_cols <= 0x7fff_0000
    &&& steps_below(f.mi_rows as int, step) * steps_below(f.mi_cols as int, step) <= i32::MAX
    &&& forall|r: int, c: int|
        0 <= r < f.mi_rows && 0 <= c < f.mi_cols && r % step == 0 && c % step == 0
            ==> #[trigger] has_residual(f, r, c, step, f.stride as int, log2)
}

proof fn lemma_bin_bounds(f: TplFrameModel, log2: int, b: int, i: int, n: int)
    requires
        n >= 0,
    ensures
        0 <= bin_count_in_row(f, log2, b, i, n) <= n,
    decreases n,
{
    if n > 0 {
        lemma_bin_bounds(f, log2, b, i, n - 1);
    }
}

proof fn lemma_count_bounds(f: TplFrameModel, log2: int, b: int, rows: int, cols: int)
    requires
        rows >= 0,
        cols >= 0,
    ensures
        0 <= bin_count(f, log2, b, rows, cols) <= rows * cols,
    decreases rows,
{
    if rows > 0 {
        lemma_count_bounds(f, log2, b, rows - 1, cols);
        lemma_bin_bounds(f, log2, b, rows - 1, cols);
        assert(rows * cols == (rows - 1) * cols + cols) by (nonlinear_arith);
    } else {
        assert(rows * cols == 0) by (nonlinear_arith)
            requires
                rows == 0,
        ;
    }
}

impl TplParams {
    /// The histogram from which the cost of a frame's vectors is modelled;
    /// none where the frame was not computed.
    #[verifier::spinoff_prover]
    pub fn frame_mv_histogram(tpl_frame: &TplDepFrame, right_shift: u8) -> (r: Option<MvHistogram>)
        requires
            tpl_frame.is_valid ==> has_histogram(tpl_frame@, right_shift as int),
        ensures
            r is Some == tpl_frame.is_valid,
            r matches Some(h) ==> {
                let log2 = right_shift as int;
                let rows = steps_below(tpl_frame.mi_rows as int, pow2i(log2));
                let cols = steps_below(tpl_frame.mi_cols as int, pow2i(log2));
                &&& h.n == rows * cols
                &&& h.count_row.len() == MV_BINS
                &&& h.count_col@ == h.count_row@
                &&& forall|b: int|
                    0 <= b < MV_BINS ==> #[trigger] h.count_row[b] == bin_count(
                        tpl_frame@,
                        log2,
                        b,
                        rows,
                        cols,
                    )
            },
    {
        if !tpl_frame.is_valid {
            return None;
        }
        let ghost f = tpl_frame@;
        let ghost log2 = right_shift as int;
        let mut count_row: Vec<i32> = vec![0; MV_BINS];
        let mut count_col: Vec<i32> = vec![0; MV_BINS];
        let mut n: i32 = 0;
        let step: i32 = pow2_of(right_shift);
        let ghost rows = steps_below(f.mi_rows as int, step as int);
        let ghost cols = steps_below(f.mi_cols as int, step as int);
        let ghost mut i: int = 0;
        proof {
            crate::arith::lemma_pow2i_mono(log2, 16);
            assert(pow2i(16) == 0x1_0000) by {
                reveal_with_fuel(pow2i, 17);
            }
            lemma_steps(f.mi_rows as int, step as int, 0);
            lemma_steps(f.mi_cols as int, step as int, 0);
            assert(0 * cols == 0) by (nonlinear_arith);
        }
        let mut row: i32 = 0;
        while row < tpl_frame.mi_rows
            invariant
                f == tpl_frame@,
                log2 == right_shift,
                has_histogram(f, log2),
                step == pow2i(log2),
                1 <= step <= 0x1_0000,
                rows == steps_below(f.mi_rows as int, step as int),
                cols == steps_below(f.mi_cols as int, step as int),
                0 <= i <= rows,
                0 <= cols,
                row == i * step,
                0 <= row,
                n == i * cols,
                count_row.len() == MV_BINS,
                count_col@ == count_row@,
                forall|b: int|
                    0 <= b < MV_BINS ==> #[trigger] count_row[b] == bin_count(f, log2, b, i, cols),
            decreases tpl_frame.mi_rows + 0x1_0000 - row,
        {
            let ghost mut j: int = 0;
            proof {
                lemma_steps(f.mi_rows as int, step as int, i);
                lemma_steps(f.mi_cols as int, step as int, 0);
                assert((i + 1) * cols == i * cols + cols) by (nonlinear_arith);
                assert((i + 1) * cols <= rows * cols) by (nonlinear_arith)
                    requires
                        i + 1 <= rows,
                        cols >= 0,
                ;
            }
            let mut col: i32 = 0;
            while col < tpl_frame.mi_cols
                invariant
                    f == tpl_frame@,
                    log2 == right_shift,
                    has_histogram(f, log2),
                    step == pow2i(log2),
                    1 <= step <= 0x1_0000,
                    rows == steps_below(f.mi_rows as int, step as int),
                    cols == steps_below(f.mi_cols as int, step as int),
                    0 <= i < rows,
                    0 <= row < f.mi_rows,
                    row == i * step,
                    (i + 1) * cols == i * cols + cols,
                    (i + 1) * cols <= rows * cols,
                    0 <= j <= cols,
                    col == j * step,
                    0 <= col,
                    n == i * cols + j,
                    count_row.len() == MV_BINS,
                    count_col@ == count_row@,
                    forall|b: int|
                        0 <= b < MV_BINS ==> #[trigger] count_row[b] == bin_count(
                            f,
                            log2,
                            b,
                            i,
                            cols,
                        ) + bin_count_in_row(f, log2, b, i, j),
                decreases tpl_frame.mi_cols + 0x1_0000 - col,
            {
                proof {
                    lemma_steps(f.mi_cols as int, step as int, j);
                    vstd::arithmetic::div_mod::lemma_mod_multiples_basic(i, step as int);
                    vstd::arithmetic::div_mod::lemma_mod_multiples_basic(j, step as int);
                    assert(has_residual(
                        f,
                        row as int,
                        col as int,
                        step as int,
                        f.stride as int,
                        log2,
                    ));
                }
                let mv: Mv = Self::compute_mv_difference(
                    tpl_frame,
                    row,
                    col,
                    step,
                    tpl_frame.stride,
                    right_shift,
                );
                let bin: usize = if mv.row < 0 {
                    0
                } else if mv.row > 499 {
                    499
                } else {
                    mv.row as usize
                };
                assert(bin == bin_at(f, log2, i, j));
                proof {
                    lemma_count_bounds(f, log2, bin as int, i, cols);
                    lemma_bin_bounds(f, log2, bin as int, i, j);
                }
                let c: i32 = count_row[bin];
                count_row.set(bin, c + 1);
                let d: i32 = count_col[bin];
                count_col.set(bin, d + 1);
                n = n + 1;
                proof {
                    assert((j + 1) * step == j * step + step) by (nonlinear_arith);
                    j = j + 1;
                }
                col = col + step;
            }
            proof {
                lemma_steps(f.mi_cols as int, step as int, j);
                assert((i + 1) * step == i * step + step) by (nonlinear_arith);
                i = i + 1;
            }
            row = row + step;
        }
        proof {
            lemma_steps(f.mi_rows as int, step as int, i);
        }
        Some(MvHistogram { count_row, count_col, n })
    }
}

/// Two to the `n`.
pub fn pow2_of(n: u8) -> (r: i32)
    requires
        n < 31,
    ensures
        r == pow2i(n as int),
        r >= 1,
{
    let mut r: i32 = 1;
    proof {
        crate::arith::lemma_pow2i_mono(n as int, 30);
        assert(pow2i(30) == 0x4000_0000) by {
            reveal_with_fuel(pow2i, 31);
        }
    }
    for i in 0..n
        invariant
            n < 31,
            r == pow2i(i as int),
            r >= 1,
            pow2i(n as int) <= 0x4000_0000,
    {
        proof {
            crate::arith::lemma_pow2i_mono(i as int + 1, n as int);
        }
        r = 2 * r;
    }
    r
}

/// How much of the stretches of length `len` from `a` and from `b` on is
/// common to both.
pub open spec fn common_length(a: int, b: int, len: int) -> int {
    let end = min_int(a, b) + len - max_int(a, b);
    if end < 0 {
        0
    } else {
        end
    }
}

/// A vector in eighths of a sample is nearest to this many samples; halves go
/// away from zero.
pub open spec fn is_whole_part(eighths: int, samples: int) -> bool {
    if eighths >= 0 {
        eighths - 4 < 8 * samples <= eighths + 4
    } else {
        eighths - 4 <= 8 * samples < eighths + 4
    }
}

impl TplDepStats {
    /// The distortion of the block without what reference `ref_idx` adds: that
    /// of the other reference of two, or against the source of a single one.
    pub open spec fn dist_without(self, ref_idx: int) -> i64 {
        if self.ref_frame_index[1] < 0 {
            self.srcrf_dist
        } else if ref_idx == 0 {
            self.cmp_recrf_dist[1]
        } else {
            self.cmp_recrf_dist[0]
        }
    }

    /// The same for the rate.
    pub open spec fn rate_without(self, ref_idx: int) -> i32 {
        if self.ref_frame_index[1] < 0 {
            self.srcrf_rate
        } else if ref_idx == 0 {
            self.cmp_recrf_rate[1]
        } else {
            self.cmp_recrf_rate[0]
        }
    }
}

/// A cell after the first `n` of the four that a block can meet got their
/// parts.
proof fn lemma_applied_cell(c: BlockCredit, f: TplFrameModel, log2: int, r: int, t: int, n: int)
    requires
        0 <= log2 <= 4,
        c.side == 4 * pow2i(log2),
        0 <= n <= 4,
        f.mi_cols <= f.stride * pow2i(log2),
        0 <= r,
        0 <= t,
        r * pow2i(log2) < f.mi_rows,
        t * pow2i(log2) < f.mi_cols,
        0 <= r * f.stride + t < f.stats.len(),
        credit_lands(f, log2, c.row, c.col),
    ensures
        ({
            let (i, j) = (r - c.row / c.side, t - c.col / c.side);
            let k = 2 * i + j;
            let s = f.stats[r * f.stride + t];
            let g = c.applied(f, log2, n);
            let u = g.stats[r * f.stride + t];
            &&& g.stats.len() == f.stats.len()
            &&& if 0 <= i <= 1 && 0 <= j <= 1 && k < n {
                &&& u.mc_dep_dist == s.mc_dep_dist.wrapping_add(c.part(c.dist, k))
                &&& u.mc_dep_rate == s.mc_dep_rate.wrapping_add(c.part(c.rate, k))
            } else {
                u == s
            }
        }),
    decreases n,
{
    if n > 0 {
        lemma_applied_cell(c, f, log2, r, t, n - 1);
        let k = n - 1;
        let p = pow2i(log2);
        crate::arith::lemma_pow2i_pos(log2);
        let side = c.side;
        lemma_target(c.row, side, k);
        lemma_target(c.col, side, k);
        let (a, b) = (c.row / side + k / 2, c.col / side + k % 2);
        assert((a * side) / side == a && (b * side) / side == b && (a * p) / p == a && (b * p) / p
            == b) by (nonlinear_arith)
            requires
                p >= 1,
                side == 4 * p,
        ;
        assert(side / 4 == p);
        let at = c.cell(f, log2, k);
        assert(at == a * f.stride + b);
        let stride = f.stride as int;
        assert(t < stride) by (nonlinear_arith)
            requires
                t * p < f.mi_cols,
                f.mi_cols <= stride * p,
                p >= 1,
        ;
        if c.lands(f, k) {
            assert(side == 4 * block_mi(log2));
            assert(0 <= target_row(c.row, side, k) < f.mi_rows * 4);
            assert(0 <= target_col(c.col, side, k) < f.mi_cols * 4);
            assert(0 <= b < stride && 0 <= a) by (nonlinear_arith)
                requires
                    0 <= b * side < f.mi_cols * 4,
                    0 <= a * side,
                    side == 4 * p,
                    f.mi_cols <= stride * p,
                    p >= 1,
            ;
            assert(0 <= at < f.stats.len());
            if a != r || b != t {
                assert(a * stride + b != r * stride + t) by (nonlinear_arith)
                    requires
                        a != r || b != t,
                        0 <= b < stride,
                        0 <= t < stride,
                ;
            }
        } else {
            assert(a != r || b != t) by {
                if a == r && b == t {
                    assert(0 <= r * side < f.mi_rows * 4 && 0 <= t * side < f.mi_cols * 4)
                        by (nonlinear_arith)
                        requires
                            side == 4 * p,
                            p >= 1,
                            0 <= r,
                            0 <= t,
                            r * p < f.mi_rows,
                            t * p < f.mi_cols,
                    ;
                }
            }
        }
    }
}

/// The part of an amount that goes to a cell, by the area that it shares with
/// the block.
proof fn lemma_cell_part(c: BlockCredit, r: int, t: int, amount: i64, v: i64)
    requires
        4 <= c.side <= 64,
    ensures
        ({
            let (i, j) = (r - c.row / c.side, t - c.col / c.side);
            let area = common_length(r * c.side, c.row, c.side) * common_length(
                t * c.side,
                c.col,
                c.side,
            );
            let part = trunc_div(amount.wrapping_mul(area as i64) as int, c.side * c.side) as i64;
            &&& 0 <= area <= 4096
            &&& if 0 <= i <= 1 && 0 <= j <= 1 {
                part == c.part(amount, 2 * i + j)
            } else {
                part == 0 && v.wrapping_add(part) == v
            }
        }),
{
    let side = c.side;
    let (i, j) = (r - c.row / side, t - c.col / side);
    let (a, b) = (
        common_length(r * side, c.row, side),
        common_length(t * side, c.col, side),
    );
    assert(0 <= a <= side && 0 <= b <= side);
    assert(0 <= a * b <= 4096) by (nonlinear_arith)
        requires
            0 <= a <= 64,
            0 <= b <= 64,
    ;
    if 0 <= i <= 1 && 0 <= j <= 1 {
        let k = 2 * i + j;
        assert(k / 2 == i && k % 2 == j);
        lemma_target(c.row, side, k);
        lemma_target(c.col, side, k);
        assert(target_row(c.row, side, k) == r * side);
        assert(target_col(c.col, side, k) == t * side);
        assert(shared_length(r * side, c.row, side) == a);
        assert(shared_length(t * side, c.col, side) == b);
    } else {
        lemma_apart(r, c.row, side);
        lemma_apart(t, c.col, side);
        assert(a == 0 || b == 0);
        assert(a * b == 0) by (nonlinear_arith)
            requires
                a == 0 || b == 0,
        ;
        assert(amount * 0 == 0) by (nonlinear_arith);
        lemma_product_fits(amount, 0);
        assert(0int / (side * side) == 0) by (nonlinear_arith)
            requires
                side >= 4,
        ;
    }
}

proof fn lemma_apart(r: int, row: int, side: int)
    requires
        side >= 1,
    ensures
        !(0 <= r - row / side <= 1) ==> common_length(r * side, row, side) == 0,
{
    let q = row / side;
    assert(q * side <= row < q * side + side) by (nonlinear_arith)
        requires
            q == row / side,
            side >= 1,
    ;
    if r < q {
        assert(r * side + side <= q * side) by (nonlinear_arith)
            requires
                r + 1 <= q,
                side >= 1,
        ;
    } else if r > q + 1 {
        assert(r * side >= q * side + 2 * side) by (nonlinear_arith)
            requires
                r >= q + 2,
                side >= 1,
        ;
    }
}

/// What a block passes on reaches the cells of its reference by the area they
/// share with its prediction. The prediction lies where the block's vector
/// points, and what is passed on is the distortion that prediction from the
/// reconstruction adds over that from the source, together with the share that
/// the model gives of what later frames credited to the block. A cell that
/// shares nothing gets nothing.
pub proof fn law_cell_grows_by_its_overlap<
    D: Fn(i64, i64, i64) -> i64,
    R: Fn(i64, i64, i64, i32) -> i64,
>(
    m: TplModel,
    share: D,
    rate: R,
    mi_row: int,
    mi_col: int,
    log2: int,
    fi: int,
    ref_idx: int,
    r: int,
    t: int,
    row: int,
    col: int,
    sv: i64,
)
    requires
        is_share_model(share),
        m.can_credit(mi_row, mi_col, log2, fi, ref_idx),
        log2 <= 4,
        0 <= r,
        0 <= t,
        ({
            let b = m.frames[fi].stats[(mi_row / pow2i(log2)) * m.frames[0].stride + mi_col
                / pow2i(log2)];
            let k = b.ref_frame_index[ref_idx] as int;
            let j = m.frames[fi].ref_map_index[k] as int;
            let f = m.frames[j];
            let source = b.dist_without(ref_idx);
            &&& k >= 0
            &&& j >= 0
            &&& f.mi_cols <= f.stride * pow2i(log2)
            &&& r * pow2i(log2) < f.mi_rows
            &&& t * pow2i(log2) < f.mi_cols
            &&& 0 <= r * f.stride + t < f.stats.len()
            &&& is_whole_part(b.mv[k].row as int, row - 4 * mi_row)
            &&& is_whole_part(b.mv[k].col as int, col - 4 * mi_col)
            &&& call_ensures(share, (b.mc_dep_dist, b.recrf_dist, source), sv)
        }),
    ensures
        ({
            let b = m.frames[fi].stats[(mi_row / pow2i(log2)) * m.frames[0].stride + mi_col
                / pow2i(log2)];
            let j = m.frames[fi].ref_map_index[b.ref_frame_index[ref_idx] as int] as int;
            let at = r * m.frames[j].stride + t;
            let source = b.dist_without(ref_idx);
            let side = 4 * pow2i(log2);
            let passed = b.recrf_dist.wrapping_sub(source).wrapping_add(sv);
            let area = common_length(r * side, row, side) * common_length(t * side, col, side);
            let after = m.credited(share, rate, mi_row, mi_col, log2, fi, ref_idx);
            after.frames[j].stats[at].mc_dep_dist == m.frames[j].stats[at].mc_dep_dist.wrapping_add(
                trunc_div(passed.wrapping_mul(area as i64) as int, side * side) as i64,
            )
        }),
{
    let b = m.block(mi_row, mi_col, log2, fi);
    let k = b.ref_frame_index[ref_idx] as int;
    let j = m.frames[fi].ref_map_index[k] as int;
    let c = m.credit(share, rate, mi_row, mi_col, log2, fi, ref_idx);
    let f = m.frames[j];
    crate::arith::lemma_pow2i_values();
    assert(c.row == row && c.col == col);
    let source = b.source_dist(ref_idx);
    let chosen = modelled_share(share, b.mc_dep_dist, b.recrf_dist, source);
    assert(call_ensures(share, (b.mc_dep_dist, b.recrf_dist, source), chosen));
    assert(chosen == sv);
    lemma_applied_cell(c, f, log2, r, t, 4);
    lemma_cell_part(c, r, t, c.dist, f.stats[r * f.stride + t].mc_dep_dist);
}

/// The same of the rate: a block passes on what its rate from the
/// reconstruction adds over that from the source, in sixteenths, together with
/// what later frames credited to it, or what the model makes of that where the
/// source leaves more than a little distortion.
pub proof fn law_cell_rate_grows_by_its_overlap<
    D: Fn(i64, i64, i64) -> i64,
    R: Fn(i64, i64, i64, i32) -> i64,
>(
    m: TplModel,
    share: D,
    rate: R,
    mi_row: int,
    mi_col: int,
    log2: int,
    fi: int,
    ref_idx: int,
    r: int,
    t: int,
    row: int,
    col: int,
    rv: i64,
)
    requires
        is_rate_model(rate),
        m.can_credit(mi_row, mi_col, log2, fi, ref_idx),
        log2 <= 4,
        0 <= r,
        0 <= t,
        ({
            let b = m.frames[fi].stats[(mi_row / pow2i(log2)) * m.frames[0].stride + mi_col
                / pow2i(log2)];
            let k = b.ref_frame_index[ref_idx] as int;
            let j = m.frames[fi].ref_map_index[k] as int;
            let f = m.frames[j];
            let source = b.dist_without(ref_idx);
            let side = 4 * pow2i(log2);
            &&& k >= 0
            &&& j >= 0
            &&& f.mi_cols <= f.stride * pow2i(log2)
            &&& r * pow2i(log2) < f.mi_rows
            &&& t * pow2i(log2) < f.mi_cols
            &&& 0 <= r * f.stride + t < f.stats.len()
            &&& is_whole_part(b.mv[k].row as int, row - 4 * mi_row)
            &&& is_whole_part(b.mv[k].col as int, col - 4 * mi_col)
            &&& -0x7ff_ffff <= b.recrf_rate <= 0x7ff_ffff
            &&& -0x7ff_ffff <= b.rate_without(ref_idx) <= 0x7ff_ffff
            &&& call_ensures(
                rate,
                (b.mc_dep_rate, b.recrf_dist, source, (side * side) as i32),
                rv,
            )
        }),
    ensures
        ({
            let b = m.frames[fi].stats[(mi_row / pow2i(log2)) * m.frames[0].stride + mi_col
                / pow2i(log2)];
            let j = m.frames[fi].ref_map_index[b.ref_frame_index[ref_idx] as int] as int;
            let at = r * m.frames[j].stride + t;
            let source_dist = b.dist_without(ref_idx);
            let source_rate = b.rate_without(ref_idx);
            let side = 4 * pow2i(log2);
            let own = (16 * (b.recrf_rate - source_rate)) as i64;
            let passed = own.wrapping_add(
                if source_dist <= 128 {
                    b.mc_dep_rate
                } else {
                    rv.wrapping_mul(8192)
                },
            );
            let area = common_length(r * side, row, side) * common_length(t * side, col, side);
            let after = m.credited(share, rate, mi_row, mi_col, log2, fi, ref_idx);
            after.frames[j].stats[at].mc_dep_rate == m.frames[j].stats[at].mc_dep_rate.wrapping_add(
                trunc_div(passed.wrapping_mul(area as i64) as int, side * side) as i64,
            )
        }),
{
    let b = m.block(mi_row, mi_col, log2, fi);
    let k = b.ref_frame_index[ref_idx] as int;
    let j = m.frames[fi].ref_map_index[k] as int;
    let c = m.credit(share, rate, mi_row, mi_col, log2, fi, ref_idx);
    let f = m.frames[j];
    crate::arith::lemma_pow2i_values();
    assert(c.row == row && c.col == col);
    let side = c.side;
    let source = b.source_dist(ref_idx);
    let pix = (side * side) as i32;
    let chosen = modelled_rate(rate, b.mc_dep_rate, b.recrf_dist, source, pix);
    assert(call_ensures(rate, (b.mc_dep_rate, b.recrf_dist, source, pix), chosen));
    assert(chosen == rv);
    lemma_applied_cell(c, f, log2, r, t, 4);
    lemma_cell_part(c, r, t, c.rate, f.stats[r * f.stride + t].mc_dep_rate);
}

impl TplModel {
    /// The frames of a group stand still: each block of frame `fi` within
    /// `mi_rows` by `mi_cols` units is predicted, with a zero vector, from the
    /// one frame `j`.
    pub open spec fn stands_still(self, fi: int, j: int, mi_rows: int, mi_cols: int) -> bool {
        let step = pow2i(self.log2 as int);
        &&& 0 <= fi < self.frames.len()
        &&& 0 <= j < self.frames.len()
        &&& fi != j
        &&& self.log2 <= 4
        &&& self.bsize == 4 * step
        &&& mi_rows <= self.frames[j].mi_rows
        &&& mi_cols <= self.frames[j].mi_cols
        &&& self.frames[j].mi_cols <= self.frames[j].stride * step
        &&& forall|r: int, t: int|
            0 <= r && 0 <= t && r * step < mi_rows && t * step < mi_cols ==> {
                let b = self.frames[fi].stats[#[trigger] (r * self.frames[0].stride + t)];
                &&& self.can_update(r * step, t * step, fi)
                &&& 0 <= b.ref_frame_index[0] < 7
                &&& b.ref_frame_index[1] < 0
                &&& self.frames[fi].ref_map_index[b.ref_frame_index[0] as int] == j
                &&& b.mv[b.ref_frame_index[0] as int].row == 0
                &&& b.mv[b.ref_frame_index[0] as int].col == 0
            }
    }
}

/// One block of a still frame credits the cell at its own place, and no other.
proof fn lemma_still_block<D: Fn(i64, i64, i64) -> i64, R: Fn(i64, i64, i64, i32) -> i64>(
    m: TplModel,
    n: TplModel,
    share: D,
    rate: R,
    fi: int,
    j: int,
    mi_rows: int,
    mi_cols: int,
    a: int,
    b: int,
    r: int,
    t: int,
    sv: i64,
)
    requires
        is_share_model(share),
        m.stands_still(fi, j, mi_rows, mi_cols),
        same_group(m, n),
        n.frames[fi] == m.frames[fi],
        0 <= a && 0 <= b && 0 <= r && 0 <= t,
        a * pow2i(m.log2 as int) < mi_rows,
        b * pow2i(m.log2 as int) < mi_cols,
        r * pow2i(m.log2 as int) < mi_rows,
        t * pow2i(m.log2 as int) < mi_cols,
        0 <= r * m.frames[j].stride + t < m.frames[j].stats.len(),
        ({
            let s = m.frames[fi].stats[r * m.frames[0].stride + t];
            &&& call_ensures(share, (s.mc_dep_dist, s.recrf_dist, s.srcrf_dist), sv)
            &&& -0x4_0000_0000_0000 <= s.recrf_dist - s.srcrf_dist + sv <= 0x4_0000_0000_0000
            &&& -0x4_0000_0000_0000 <= s.recrf_dist - s.srcrf_dist <= 0x4_0000_0000_0000
        }),
    ensures
        ({
            let step = pow2i(m.log2 as int);
            let after = n.updated(share, rate, a * step, b * step, fi);
            let at = r * m.frames[j].stride + t;
            let s = m.frames[fi].stats[r * m.frames[0].stride + t];
            &&& same_group(m, after)
            &&& after.frames[fi] == m.frames[fi]
            &&& after.frames[j].stats[at].mc_dep_dist == if a == r && b == t {
                n.frames[j].stats[at].mc_dep_dist.wrapping_add(
                    (s.recrf_dist - s.srcrf_dist + sv) as i64,
                )
            } else {
                n.frames[j].stats[at].mc_dep_dist
            }
        }),
{
    let log2 = m.log2 as int;
    let step = pow2i(log2);
    crate::arith::lemma_pow2i_values();
    let (mr, mc) = (a * step, b * step);
    assert((a * step) / step == a && (b * step) / step == b) by (nonlinear_arith)
        requires
            step >= 1,
    ;
    let place = a * m.frames[0].stride + b;
    let x = m.frames[fi].stats[place];
    assert(same_frame(m.frames[0], n.frames[0]));
    assert(same_frame(m.frames[j], n.frames[j]));
    assert(m.can_update(mr, mc, fi));
    lemma_can_update_same(m, n, mr, mc, fi);
    lemma_updated_same(n, share, rate, mr, mc, fi);
    let mid = n.credited(share, rate, mr, mc, log2, fi, 0);
    let after = n.updated(share, rate, mr, mc, fi);
    lemma_same_group_chain(m, n, after);
    law_credit_changes_dependency_only(n, share, rate, mr, mc, log2, fi, 0);
    assert(n.block(mr, mc, log2, fi) == x);
    assert(n.reference(mr, mc, log2, fi, 0) == Some(j));
    assert(mid.frames[fi] == n.frames[fi]);
    assert(same_frame(n.frames[0], mid.frames[0]));
    assert(mid.block(mr, mc, log2, fi) == x);
    assert(mid.reference(mr, mc, log2, fi, 1) is None);
    assert(after == mid);
    let xs = modelled_share(share, x.mc_dep_dist, x.recrf_dist, x.srcrf_dist);
    let side = 4 * step;
    let at = r * m.frames[j].stride + t;
    let old = n.frames[j].stats[at].mc_dep_dist;
    let c = n.credit(share, rate, mr, mc, log2, fi, 0);
    assert(c.row == 4 * mr && c.col == 4 * mc);
    lemma_applied_cell(c, n.frames[j], log2, r, t, 4);
    lemma_cell_part(c, r, t, c.dist, old);
    assert(4 * (a * step) == a * side && 4 * (b * step) == b * side) by (nonlinear_arith)
        requires
            side == 4 * step,
    ;
    let (la, lb) = (common_length(r * side, a * side, side), common_length(t * side, b * side, side));
    if a == r && b == t {
        assert(la == side && lb == side);
        assert(call_ensures(share, (x.mc_dep_dist, x.recrf_dist, x.srcrf_dist), xs));
        assert(xs == sv);
        let total = x.recrf_dist - x.srcrf_dist + sv;
        assert(c.dist == total);
        let sq = side * side;
        assert(16 <= sq <= 4096) by (nonlinear_arith)
            requires
                4 <= side <= 64,
                sq == side * side,
        ;
        assert(-0x4000_0000_0000_0000 <= total * sq <= 0x4000_0000_0000_0000) by (nonlinear_arith)
            requires
                -0x4_0000_0000_0000 <= total <= 0x4_0000_0000_0000,
                16 <= sq <= 4096,
        ;
        lemma_product_fits(c.dist, sq as i64);
        assert(trunc_div(total * sq, sq) == total) by {
            vstd::arithmetic::div_mod::lemma_div_multiples_vanish(total, sq);
            vstd::arithmetic::div_mod::lemma_div_multiples_vanish(-total, sq);
            assert((-total) * sq == -(total * sq)) by (nonlinear_arith);
            assert(sq * total == total * sq && sq * (-total) == (-total) * sq) by (nonlinear_arith);
            assert(total < 0 <==> total * sq < 0) by (nonlinear_arith)
                requires
                    sq >= 16,
            ;
        }
    } else {
        if r != a {
            lemma_still_apart(r, a, side);
        } else {
            lemma_still_apart(t, b, side);
        }
        assert(la == 0 || lb == 0);
        assert(la * lb == 0) by (nonlinear_arith)
            requires
                la == 0 || lb == 0,
        ;
        assert(c.dist * 0 == 0) by (nonlinear_arith);
        lemma_product_fits(c.dist, 0);
        assert(0int / (side * side) == 0) by (nonlinear_arith)
            requires
                side >= 4,
        ;
        assert(old.wrapping_add(0i64) == old);
    }
}

proof fn lemma_product_fits(a: i64, b: i64)
    requires
        i64::MIN <= a * b <= i64::MAX,
    ensures
        a.wrapping_mul(b) == a * b,
        b == 0 ==> a.wrapping_mul(b) == 0,
{
    assert(b == 0 ==> a * b == 0) by (nonlinear_arith);
}

proof fn lemma_still_apart(r: int, a: int, side: int)
    requires
        side >= 1,
        r != a,
    ensures
        common_length(r * side, a * side, side) == 0,
{
    if r < a {
        assert(r * side + side <= a * side) by (nonlinear_arith)
            requires
                r + 1 <= a,
                side >= 1,
        ;
    } else {
        assert(a * side + side <= r * side) by (nonlinear_arith)
            requires
                a + 1 <= r,
                side >= 1,
        ;
    }
}

/// What frame `j` holds at a cell once the first `cols` blocks of row `a` of a
/// still frame passed on their costs.
proof fn lemma_still_row<D: Fn(i64, i64, i64) -> i64, R: Fn(i64, i64, i64, i32) -> i64>(
    m: TplModel,
    n: TplModel,
    share: D,
    rate: R,
    fi: int,
    j: int,
    mi_rows: int,
    mi_cols: int,
    a: int,
    cols: int,
    r: int,
    t: int,
    sv: i64,
)
    requires
        is_share_model(share),
        m.stands_still(fi, j, mi_rows, mi_cols),
        same_group(m, n),
        n.frames[fi] == m.frames[fi],
        0 <= a && 0 <= r && 0 <= t && 0 <= cols,
        a * pow2i(m.log2 as int) < mi_rows,
        cols > 0 ==> (cols - 1) * pow2i(m.log2 as int) < mi_cols,
        r * pow2i(m.log2 as int) < mi_rows,
        t * pow2i(m.log2 as int) < mi_cols,
        0 <= r * m.frames[j].stride + t < m.frames[j].stats.len(),
        ({
            let s = m.frames[fi].stats[r * m.frames[0].stride + t];
            &&& call_ensures(share, (s.mc_dep_dist, s.recrf_dist, s.srcrf_dist), sv)
            &&& -0x4_0000_0000_0000 <= s.recrf_dist - s.srcrf_dist + sv <= 0x4_0000_0000_0000
            &&& -0x4_0000_0000_0000 <= s.recrf_dist - s.srcrf_dist <= 0x4_0000_0000_0000
        }),
    ensures
        ({
            let step = pow2i(m.log2 as int);
            let after = n.row_synthesized(share, rate, a * step, step, fi, cols);
            let at = r * m.frames[j].stride + t;
            let s = m.frames[fi].stats[r * m.frames[0].stride + t];
            &&& same_group(m, after)
            &&& after.frames[fi] == m.frames[fi]
            &&& after.frames[j].stats[at].mc_dep_dist == if a == r && t < cols {
                n.frames[j].stats[at].mc_dep_dist.wrapping_add(
                    (s.recrf_dist - s.srcrf_dist + sv) as i64,
                )
            } else {
                n.frames[j].stats[at].mc_dep_dist
            }
        }),
    decreases cols,
{
    if cols > 0 {
        let step = pow2i(m.log2 as int);
        crate::arith::lemma_pow2i_pos(m.log2 as int);
        if cols > 1 {
            assert((cols - 2) * step < mi_cols) by (nonlinear_arith)
                requires
                    (cols - 1) * step < mi_cols,
                    step >= 1,
            ;
        }
        lemma_still_row(
            m,
            n,
            share,
            rate,
            fi,
            j,
            mi_rows,
            mi_cols,
            a,
            cols - 1,
            r,
            t,
            sv,
        );
        let before = n.row_synthesized(share, rate, a * step, step, fi, cols - 1);
        lemma_still_block(
            m,
            before,
            share,
            rate,
            fi,
            j,
            mi_rows,
            mi_cols,
            a,
            cols - 1,
            r,
            t,
            sv,
        );
    }
}

proof fn lemma_still_rows<D: Fn(i64, i64, i64) -> i64, R: Fn(i64, i64, i64, i32) -> i64>(
    m: TplModel,
    share: D,
    rate: R,
    fi: int,
    j: int,
    mi_rows: int,
    mi_cols: int,
    rows: int,
    cols: int,
    r: int,
    t: int,
    sv: i64,
)
    requires
        is_share_model(share),
        m.stands_still(fi, j, mi_rows, mi_cols),
        0 <= r && 0 <= t && 0 <= rows && 0 <= cols,
        rows > 0 ==> (rows - 1) * pow2i(m.log2 as int) < mi_rows,
        cols > 0 ==> (cols - 1) * pow2i(m.log2 as int) < mi_cols,
        r * pow2i(m.log2 as int) < mi_rows,
        t * pow2i(m.log2 as int) < mi_cols,
        t < cols,
        0 <= r * m.frames[j].stride + t < m.frames[j].stats.len(),
        ({
            let s = m.frames[fi].stats[r * m.frames[0].stride + t];
            &&& call_ensures(share, (s.mc_dep_dist, s.recrf_dist, s.srcrf_dist), sv)
            &&& -0x4_0000_0000_0000 <= s.recrf_dist - s.srcrf_dist + sv <= 0x4_0000_0000_0000
            &&& -0x4_0000_0000_0000 <= s.recrf_dist - s.srcrf_dist <= 0x4_0000_0000_0000
        }),
    ensures
        ({
            let step = pow2i(m.log2 as int);
            let after = m.synthesized(share, rate, step, fi, rows, cols);
            let at = r * m.frames[j].stride + t;
            let s = m.frames[fi].stats[r * m.frames[0].stride + t];
            &&& same_group(m, after)
            &&& after.frames[fi] == m.frames[fi]
            &&& after.frames[j].stats[at].mc_dep_dist == if r < rows {
                m.frames[j].stats[at].mc_dep_dist.wrapping_add(
                    (s.recrf_dist - s.srcrf_dist + sv) as i64,
                )
            } else {
                m.frames[j].stats[at].mc_dep_dist
            }
        }),
    decreases rows,
{
    lemma_same_group_reflexive(m);
    if rows > 0 {
        let step = pow2i(m.log2 as int);
        crate::arith::lemma_pow2i_pos(m.log2 as int);
        if rows > 1 {
            assert((rows - 2) * step < mi_rows) by (nonlinear_arith)
                requires
                    (rows - 1) * step < mi_rows,
                    step >= 1,
            ;
        }
        lemma_still_rows(
            m,
            share,
            rate,
            fi,
            j,
            mi_rows,
            mi_cols,
            rows - 1,
            cols,
            r,
            t,
            sv,
        );
        let before = m.synthesized(share, rate, step, fi, rows - 1, cols);
        lemma_still_row(
            m,
            before,
            share,
            rate,
            fi,
            j,
            mi_rows,
            mi_cols,
            rows - 1,
            cols,
            r,
            t,
            sv,
        );
    }
}

/// Over a whole frame that stands still each block passes on its costs once,
/// to the cell at its own place: that cell's credit grows by the block's own
/// distortion over the source and by the share of what was credited to the
/// block itself.
pub proof fn law_still_frame_credits_every_cell_once<
    D: Fn(i64, i64, i64) -> i64,
    R: Fn(i64, i64, i64, i32) -> i64,
>(
    m: TplModel,
    share: D,
    rate: R,
    fi: int,
    j: int,
    mi_rows: int,
    mi_cols: int,
    r: int,
    t: int,
    sv: i64,
)
    requires
        is_share_model(share),
        m.stands_still(fi, j, mi_rows, mi_cols),
        0 <= r && 0 <= t,
        r * pow2i(m.log2 as int) < mi_rows,
        t * pow2i(m.log2 as int) < mi_cols,
        0 <= r * m.frames[j].stride + t < m.frames[j].stats.len(),
        ({
            let s = m.frames[fi].stats[r * m.frames[0].stride + t];
            &&& call_ensures(share, (s.mc_dep_dist, s.recrf_dist, s.srcrf_dist), sv)
            &&& -0x4_0000_0000_0000 <= s.recrf_dist - s.srcrf_dist + sv <= 0x4_0000_0000_0000
            &&& -0x4_0000_0000_0000 <= s.recrf_dist - s.srcrf_dist <= 0x4_0000_0000_0000
        }),
    ensures
        ({
            let step = search_step(m.bsize as int);
            let after = m.synthesized(
                share,
                rate,
                step,
                fi,
                steps_below(mi_rows, step),
                steps_below(mi_cols, step),
            );
            let at = r * m.frames[j].stride + t;
            let s = m.frames[fi].stats[r * m.frames[0].stride + t];
            after.frames[j].stats[at].mc_dep_dist == m.frames[j].stats[at].mc_dep_dist.wrapping_add(
                (s.recrf_dist - s.srcrf_dist + sv) as i64,
            )
        }),
{
    let step = pow2i(m.log2 as int);
    crate::arith::lemma_pow2i_values();
    assert(search_step(m.bsize as int) == step);
    let rows = steps_below(mi_rows, step);
    let cols = steps_below(mi_cols, step);
    lemma_steps(mi_rows, step, r);
    lemma_steps(mi_cols, step, t);
    lemma_steps(mi_rows, step, rows - 1);
    lemma_steps(mi_cols, step, cols - 1);
    lemma_still_rows(m, share, rate, fi, j, mi_rows, mi_cols, rows, cols, r, t, sv);
}

/// The neighbour that predicts a vector better, and better than nothing does,
/// is the one it is coded against: adding the neighbour to what is coded gives
/// the vector back. Where the two neighbours predict equally well, or neither
/// helps, the vector itself is coded.
pub proof fn law_better_neighbour_predicts(current: Mv, up: Mv, left: Mv)
    requires
        mv_minus_fits(current, up),
        mv_minus_fits(current, left),
    ensures
        ({
            let a = abs_int(current.row - up.row) + abs_int(current.col - up.col);
            let b = abs_int(current.row - left.row) + abs_int(current.col - left.col);
            let c = abs_int(current.row as int) + abs_int(current.col as int);
            let d = mv_residual(current, Some(up), Some(left));
            &&& (a < b && a < c ==> d.row + up.row == current.row && d.col + up.col == current.col)
            &&& (b < a && b < c ==> d.row + left.row == current.row && d.col + left.col
                == current.col)
            &&& (a == b || (a >= c && b >= c) ==> d == current)
        }),
        ({
            let a = abs_int(current.row - up.row) + abs_int(current.col - up.col);
            let c = abs_int(current.row as int) + abs_int(current.col as int);
            let d = mv_residual(current, Some(up), None);
            let e = mv_residual(current, None, Some(up));
            &&& d == e
            &&& (a < c ==> d.row + up.row == current.row && d.col + up.col == current.col)
            &&& (a >= c ==> d == current)
        }),
        mv_residual(current, None, None) == current,
{
}

/// The counts of the first `n` bins together.
pub open spec fn bins_total(f: TplFrameModel, log2: int, rows: int, cols: int, n: int) -> int
    decreases n,
{
    if n <= 0 {
        0
    } else {
        bins_total(f, log2, rows, cols, n - 1) + bin_count(f, log2, n - 1, rows, cols)
    }
}

spec fn row_bins_total(f: TplFrameModel, log2: int, i: int, cols: int, n: int) -> int
    decreases n,
{
    if n <= 0 {
        0
    } else {
        row_bins_total(f, log2, i, cols, n - 1) + bin_count_in_row(f, log2, n - 1, i, cols)
    }
}

/// Every vector of a frame is in one bin and in no other: the counts of all
/// bins add up to the number of cells.
pub proof fn law_every_vector_is_in_one_bin(f: TplFrameModel, log2: int, rows: int, cols: int)
    requires
        0 <= rows,
        0 <= cols,
    ensures
        bins_total(f, log2, rows, cols, MV_BINS as int) == rows * cols,
    decreases rows,
{
    if rows > 0 {
        law_every_vector_is_in_one_bin(f, log2, rows - 1, cols);
        lemma_bins_of_rows(f, log2, rows, cols, 500);
        lemma_bins_of_row(f, log2, rows - 1, cols);
        assert(rows * cols == (rows - 1) * cols + cols) by (nonlinear_arith);
    } else {
        lemma_bins_of_nothing(f, log2, cols, 500);
        assert(0 * cols == 0) by (nonlinear_arith);
    }
}

proof fn lemma_bins_of_nothing(f: TplFrameModel, log2: int, cols: int, n: int)
    ensures
        bins_total(f, log2, 0, cols, n) == 0,
    decreases n,
{
    if n > 0 {
        lemma_bins_of_nothing(f, log2, cols, n - 1);
    }
}

proof fn lemma_bins_of_rows(f: TplFrameModel, log2: int, rows: int, cols: int, n: int)
    requires
        rows > 0,
    ensures
        bins_total(f, log2, rows, cols, n) == bins_total(f, log2, rows - 1, cols, n)
            + row_bins_total(f, log2, rows - 1, cols, n),
    decreases n,
{
    if n > 0 {
        lemma_bins_of_rows(f, log2, rows, cols, n - 1);
    }
}

proof fn lemma_bins_of_row(f: TplFrameModel, log2: int, i: int, cols: int)
    requires
        0 <= cols,
    ensures
        row_bins_total(f, log2, i, cols, 500) == cols,
    decreases cols,
{
    if cols > 0 {
        lemma_bins_of_row(f, log2, i, cols - 1);
    }
    lemma_bins_of_cell(f, log2, i, cols, 500);
}

proof fn lemma_bins_of_cell(f: TplFrameModel, log2: int, i: int, cols: int, n: int)
    requires
        0 <= n,
        0 <= cols,
    ensures
        row_bins_total(f, log2, i, cols, n) == if cols == 0 {
            0
        } else {
            row_bins_total(f, log2, i, cols - 1, n) + (if bin_at(f, log2, i, cols - 1) < n {
                1int
            } else {
                0
            })
        },
    decreases n,
{
    if n > 0 {
        lemma_bins_of_cell(f, log2, i, cols, n - 1);
    }
}

/// Where nothing overflows the cost of a 64-bit rate is the common one.
pub proof fn law_wide_cost_is_the_cost(rm: i32, rate: i64, dist: i64)
    requires
        i64::MIN <= rate * rm,
        rate * rm + 256 <= i64::MAX,
        -crate::rd::MAX_DIST <= dist <= crate::rd::MAX_DIST,
        i64::MIN <= crate::rd::rd_value(rm as int, rate as int, dist as int) <= i64::MAX,
    ensures
        wide_rdcost(rm, rate, dist) == crate::rd::rd_value(rm as int, rate as int, dist as int),
{
    let p = rate * (rm as i64);
    assert(rate.wrapping_mul(rm as i64) == p);
    assert(dist.wrapping_mul(128) == dist * 128);
}

/// What is stored of a block is at least 1 in each figure that is divided by,
/// and is otherwise what was found.
pub proof fn law_stored_figures_are_positive(s: TplDepStats, r: TplDepStats)
    requires
        is_stored(s, r),
    ensures
        r.intra_cost >= 1 && r.inter_cost >= 1,
        r.srcrf_dist >= 1 && r.recrf_dist >= 1 && r.srcrf_sse >= 1,
        r.srcrf_rate >= 1 && r.recrf_rate >= 1,
        s.intra_cost >= 1 ==> r.intra_cost == s.intra_cost,
        s.inter_cost >= 1 ==> r.inter_cost == s.inter_cost,
        s.srcrf_dist >= 1 ==> r.srcrf_dist == s.srcrf_dist,
        s.recrf_dist >= 1 ==> r.recrf_dist == s.recrf_dist,
        s.srcrf_sse >= 1 ==> r.srcrf_sse == s.srcrf_sse,
        s.srcrf_rate >= 1 ==> r.srcrf_rate == s.srcrf_rate,
        s.recrf_rate >= 1 ==> r.recrf_rate == s.recrf_rate,
        r.recrf_sse == s.recrf_sse,
        r.intra_dist == s.intra_dist,
        r.intra_rate == s.intra_rate,
        r.mc_dep_dist == s.mc_dep_dist,
        r.mc_dep_rate == s.mc_dep_rate,
        r.mv == s.mv,
        r.ref_frame_index == s.ref_frame_index,
        r.pred_error == s.pred_error,
{
}

} // verus!
