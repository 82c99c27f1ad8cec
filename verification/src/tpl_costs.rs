//! What the temporal dependency model hands to rate control: the costs of the
//! cells of a frame, of its 16x16 blocks, and the blocks of a superblock.

use vstd::prelude::*;

use crate::arith::{min_int, pow2i, trunc_div};
use crate::ref_gop::{FrameType, FrameUpdateType};
use crate::tpl_gop::{coded_to_superres_mi, pixels_to_mi};
use crate::tpl_model::{
    grid_pos,
    in_grid,
    lemma_steps,
    pow2_of,
    rdcost_i64_rate,
    steps_below,
    tpl_ptr_pos,
    wide_rdcost,
    TplDepFrame,
    TplDepStats,
    TplFrameModel,
    TplParams,
    MAX_TPL_FRAME_IDX,
};

verus! {

/// Mode-info units to a side of a 16x16 block.
pub const RDMULT_BLOCK_MI: i32 = 4;

/// The costs of one cell.
#[derive(Clone, Copy, Debug, PartialEq, Eq, Structural)]
pub struct CellCost {
    /// Distortion against the source reference.
    pub weight: i64,
    /// The cell's own distortion, in cost units.
    pub own: i64,
    /// Cost of what depends on the cell.
    pub dependent: i64,
}

/// The costs of the cell at a grid position.
pub open spec fn cell_cost(f: TplFrameModel, pos: int) -> CellCost {
    let s = f.stats[pos];
    CellCost {
        weight: s.srcrf_dist,
        own: s.recrf_dist.wrapping_mul(128),
        dependent: wide_rdcost(f.base_rdmult, s.mc_dep_rate, s.mc_dep_dist),
    }
}

/// Every cell of a window, `2^log2` mode-info units apart, lies in the grid.
pub open spec fn window_in_grid(
    f: TplFrameModel,
    log2: int,
    top: int,
    left: int,
    bottom: int,
    right: int,
) -> bool {
    &&& 0 <= log2 < 31
    &&& bottom + pow2i(log2) <= i32::MAX
    &&& right + pow2i(log2) <= i32::MAX
    &&& forall|i: int, j: int|
        0 <= i < steps_below(bottom - top, pow2i(log2)) && 0 <= j < steps_below(
            right - left,
            pow2i(log2),
        ) ==> #[trigger] in_grid(
            top + i * pow2i(log2),
            left + j * pow2i(log2),
            f.stride as int,
            log2,
            f.stats.len() as int,
        )
}

/// `r` holds the costs of a window's cells, row by row.
pub open spec fn is_window(
    f: TplFrameModel,
    log2: int,
    top: int,
    left: int,
    bottom: int,
    right: int,
    r: Seq<Vec<CellCost>>,
) -> bool {
    &&& r.len() == steps_below(bottom - top, pow2i(log2))
    &&& forall|i: int|
        0 <= i < r.len() ==> is_window_row(f, log2, top + i * pow2i(log2), left, right, #[trigger] r[i])
}

/// `r` holds the costs of one row of a window.
pub open spec fn is_window_row(
    f: TplFrameModel,
    log2: int,
    row: int,
    left: int,
    right: int,
    r: Vec<CellCost>,
) -> bool {
    &&& r.len() == steps_below(right - left, pow2i(log2))
    &&& forall|j: int|
        0 <= j < r.len() ==> #[trigger] r[j] == cell_cost(
            f,
            grid_pos(row, left + j * pow2i(log2), f.stride as int, log2),
        )
}

fn window_row(
    frame: &TplDepFrame,
    shift: u8,
    row: i32,
    left: i32,
    right: i32,
    Ghost(top): Ghost<int>,
    Ghost(bottom): Ghost<int>,
    Ghost(i): Ghost<int>,
) -> (r: Vec<CellCost>)
    requires
        window_in_grid(frame@, shift as int, top, left as int, bottom, right as int),
        0 <= i < steps_below(bottom - top, pow2i(shift as int)),
        row == top + i * pow2i(shift as int),
    ensures
        is_window_row(frame@, shift as int, row as int, left as int, right as int, r),
{
    let ghost f = frame@;
    let ghost log2 = shift as int;
    let step: i32 = pow2_of(shift);
    let mut out: Vec<CellCost> = Vec::new();
    let mut col: i32 = left;
    let ghost width = right - left;
    proof {
        lemma_steps(width, step as int, 0);
        assert(0 * step == 0) by (nonlinear_arith);
    }
    while col < right
        invariant
            f == frame@,
            log2 == shift,
            step == pow2i(log2),
            step >= 1,
            width == right - left,
            window_in_grid(f, log2, top, left as int, bottom, right as int),
            0 <= i < steps_below(bottom - top, pow2i(log2)),
            row == top + i * pow2i(log2),
            col == left + out.len() * step,
            out.len() <= steps_below(width, step as int),
            forall|j: int|
                0 <= j < out.len() ==> #[trigger] out[j] == cell_cost(
                    f,
                    grid_pos(row as int, left + j * step, f.stride as int, log2),
                ),
        decreases right + step - col,
    {
        let ghost j = out.len() as int;
        proof {
            lemma_steps(width, step as int, j);
            assert((j + 1) * step == j * step + step) by (nonlinear_arith);
            assert(in_grid(
                top + i * pow2i(log2),
                left + j * pow2i(log2),
                f.stride as int,
                log2,
                f.stats.len() as int,
            ));
        }
        let pos: usize = tpl_ptr_pos(row, col, frame.stride, shift) as usize;
        let s: TplDepStats = frame.stats[pos];
        out.push(
            CellCost {
                weight: s.srcrf_dist,
                own: s.recrf_dist.wrapping_mul(128),
                dependent: rdcost_i64_rate(frame.base_rdmult, s.mc_dep_rate, s.mc_dep_dist),
            },
        );
        col = col + step;
    }
    proof {
        lemma_steps(width, step as int, out.len() as int);
    }
    out
}

/// The costs of the cells of a window of a frame, row by row.
fn window_costs(
    frame: &TplDepFrame,
    shift: u8,
    top: i32,
    left: i32,
    bottom: i32,
    right: i32,
) -> (r: Vec<Vec<CellCost>>)
    requires
        window_in_grid(
            frame@,
            shift as int,
            top as int,
            left as int,
            bottom as int,
            right as int,
        ),
    ensures
        is_window(
            frame@,
            shift as int,
            top as int,
            left as int,
            bottom as int,
            right as int,
            r@,
        ),
{
    let ghost f = frame@;
    let ghost log2 = shift as int;
    let step: i32 = pow2_of(shift);
    let mut out: Vec<Vec<CellCost>> = Vec::new();
    let mut row: i32 = top;
    let ghost height = bottom - top;
    proof {
        lemma_steps(height, step as int, 0);
        assert(0 * step == 0) by (nonlinear_arith);
    }
    while row < bottom
        invariant
            f == frame@,
            log2 == shift,
            step == pow2i(log2),
            step >= 1,
            height == bottom - top,
            window_in_grid(f, log2, top as int, left as int, bottom as int, right as int),
            row == top + out.len() * step,
            out.len() <= steps_below(height, step as int),
            forall|i: int|
                0 <= i < out.len() ==> is_window_row(
                    f,
                    log2,
                    top + i * step,
                    left as int,
                    right as int,
                    #[trigger] out[i],
                ),
        decreases bottom + step - row,
    {
        let ghost i = out.len() as int;
        proof {
            lemma_steps(height, step as int, i);
            assert((i + 1) * step == i * step + step) by (nonlinear_arith);
        }
        let cells = window_row(
            frame,
            shift,
            row,
            left,
            right,
            Ghost(top as int),
            Ghost(bottom as int),
            Ghost(i),
        );
        out.push(cells);
        row = row + step;
    }
    proof {
        lemma_steps(height, step as int, out.len() as int);
    }
    out
}

/// `a / b` rounded up for a non-negative `a`; toward zero otherwise.
fn ceil_div4(a: i32) -> (r: i32)
    requires
        a <= i32::MAX - 3,
    ensures
        r == trunc_div(a + 3, 4),
{
    let x: i64 = a as i64 + 3;
    if x < 0 {
        (-((-x) / 4)) as i32
    } else {
        (x / 4) as i32
    }
}

impl TplParams {
    /// The costs of all cells of a frame, row by row: what the importance of
    /// the frame is computed from.
    #[must_use]
    pub fn importance_cells(&self, gf_frame_index: usize) -> (r: Vec<Vec<CellCost>>)
        requires
            gf_frame_index < self.frames.len(),
            ({
                let f = self@.frames[gf_frame_index as int];
                window_in_grid(
                    f,
                    self.tpl_stats_block_mis_log2 as int,
                    0,
                    0,
                    f.mi_rows as int,
                    f.mi_cols as int,
                )
            }),
        ensures
            ({
                let f = self@.frames[gf_frame_index as int];
                is_window(
                    f,
                    self.tpl_stats_block_mis_log2 as int,
                    0,
                    0,
                    f.mi_rows as int,
                    f.mi_cols as int,
                    r@,
                )
            }),
    {
        let f = &self.frames[gf_frame_index];
        assert(f@ == self@.frames[gf_frame_index as int]);
        window_costs(f, self.tpl_stats_block_mis_log2, 0, 0, f.mi_rows, f.mi_cols)
    }

    /// Rows and columns of 16x16 blocks of a frame, whose width is that after
    /// upscaling; none where the frame was not computed.
    #[must_use]
    pub fn rdmult_grid(
        &self,
        gf_frame_index: usize,
        superres_upscaled_width: i32,
        mi_rows: i32,
    ) -> (r: Option<(i32, i32)>)
        requires
            superres_upscaled_width <= i32::MAX - 7,
            mi_rows <= i32::MAX - 3,
        ensures
            r == (if gf_frame_index < self.frames.len() && self@.frames[gf_frame_index as int].is_valid {
                Some(
                    (
                        trunc_div(mi_rows + 3, 4) as i32,
                        trunc_div(2 * ((superres_upscaled_width + 7) / 8) + 3, 4) as i32,
                    ),
                )
            } else {
                None
            }),
    {
        if gf_frame_index >= self.frames.len() || !self.frames[gf_frame_index].is_valid {
            return None;
        }
        let mi_cols_sr: i32 = pixels_to_mi(superres_upscaled_width);
        Some((ceil_div4(mi_rows), ceil_div4(mi_cols_sr)))
    }

    /// The costs of the cells of a 16x16 block that lie inside the frame.
    #[must_use]
    pub fn rdmult_block(
        &self,
        gf_frame_index: usize,
        row: i32,
        col: i32,
        mi_rows: i32,
        mi_cols_sr: i32,
    ) -> (r: Vec<Vec<CellCost>>)
        requires
            gf_frame_index < self.frames.len(),
            0 <= row,
            0 <= col,
            4 * row + 4 <= i32::MAX,
            4 * col + 4 <= i32::MAX,
            window_in_grid(
                self@.frames[gf_frame_index as int],
                self.tpl_stats_block_mis_log2 as int,
                4 * row,
                4 * col,
                min_int(4 * row + 4, mi_rows as int),
                min_int(4 * col + 4, mi_cols_sr as int),
            ),
        ensures
            is_window(
                self@.frames[gf_frame_index as int],
                self.tpl_stats_block_mis_log2 as int,
                4 * row,
                4 * col,
                min_int(4 * row + 4, mi_rows as int),
                min_int(4 * col + 4, mi_cols_sr as int),
                r@,
            ),
    {
        let f = &self.frames[gf_frame_index];
        assert(f@ == self@.frames[gf_frame_index as int]);
        let top: i32 = row * RDMULT_BLOCK_MI;
        let left: i32 = col * RDMULT_BLOCK_MI;
        let bottom: i32 = if top + RDMULT_BLOCK_MI < mi_rows {
            top + RDMULT_BLOCK_MI
        } else {
            mi_rows
        };
        let right: i32 = if left + RDMULT_BLOCK_MI < mi_cols_sr {
            left + RDMULT_BLOCK_MI
        } else {
            mi_cols_sr
        };
        window_costs(f, self.tpl_stats_block_mis_log2, top, left, bottom, right)
    }
}

/// What the multipliers of a superblock's blocks depend on.
#[derive(Clone, Copy, Debug)]
pub struct TplRdmultSbParams {
    pub gf_frame_index: usize,
    pub update_type: FrameUpdateType,
    pub layer_depth: i32,
    pub gfu_boost: i32,
    pub frame_type: FrameType,
    /// Adaptive quantization; anything but 0 rules the model out.
    pub aq_mode: i32,
    pub superres_scale_denominator: i32,
    pub superres_upscaled_width: i32,
    pub mi_rows: i32,
    pub base_qindex: i32,
    pub y_dc_delta_q: i32,
    /// What the superblock adds to the quantizer index.
    pub rdmult_delta_qindex: i32,
    pub bit_depth: u8,
    pub use_fixed_qp_offsets: bool,
    pub is_stat_consumption_stage: bool,
    /// Number of the tuning metric.
    pub tuning: i32,
    /// Number of the encoding mode.
    pub mode: i32,
    /// Width of a superblock in mode-info units.
    pub sb_mi_width: i32,
    /// Height of a superblock in mode-info units.
    pub sb_mi_height: i32,
}

/// The 16x16 blocks of a superblock, and what its multiplier is computed from.
pub struct RdmultSbWindow {
    /// Positions of the blocks in the frame's grid of them, row by row.
    pub indices: Vec<usize>,
    pub boost_index: i32,
    pub layer_depth: i32,
    /// Quantizer index of the frame.
    pub orig_qindex: i32,
    /// Quantizer index of the superblock.
    pub new_qindex: i32,
}

impl TplRdmultSbParams {
    /// The positions and sizes are in range.
    pub open spec fn in_range(self, mi_row: int, mi_col: int) -> bool {
        &&& 0 <= mi_row
        &&& 0 <= mi_col
        &&& 0 <= self.superres_scale_denominator
        &&& mi_col * self.superres_scale_denominator <= i32::MAX - 4
        &&& 0 <= self.sb_mi_width
        &&& self.sb_mi_width * self.superres_scale_denominator <= i32::MAX - 4
        &&& 0 <= self.sb_mi_height <= i32::MAX - 3
        &&& 0 <= self.superres_upscaled_width <= i32::MAX - 7
        &&& 0 <= self.mi_rows <= i32::MAX - 3
        &&& mi_row / 4 + (self.sb_mi_height + 3) / 4 <= i32::MAX
        &&& self.grid_rows() * self.grid_cols() <= i32::MAX
        &&& i32::MIN <= self.base_qindex + self.y_dc_delta_q <= i32::MAX
        &&& i32::MIN <= self.base_qindex + self.rdmult_delta_qindex <= i32::MAX
        &&& i32::MIN <= self.base_qindex + self.rdmult_delta_qindex + self.y_dc_delta_q <= i32::MAX
    }

    /// Rows and columns of 16x16 blocks of the frame.
    pub open spec fn grid_rows(self) -> int {
        (self.mi_rows + 3) / 4
    }

    pub open spec fn grid_cols(self) -> int {
        (2 * ((self.superres_upscaled_width + 7) / 8) + 3) / 4
    }

    /// First and last (exclusive) row of the superblock's blocks.
    pub open spec fn first_row(self, mi_row: int) -> int {
        mi_row / 4
    }

    pub open spec fn end_row(self, mi_row: int) -> int {
        min_int(self.grid_rows(), mi_row / 4 + (self.sb_mi_height + 3) / 4)
    }

    /// First and last (exclusive) column, in the upscaled frame.
    pub open spec fn first_col(self, mi_col: int) -> int {
        ((mi_col * self.superres_scale_denominator + 4) / 8) / 4
    }

    pub open spec fn end_col(self, mi_col: int) -> int {
        min_int(
            self.grid_cols(),
            self.first_col(mi_col) + ((self.sb_mi_width * self.superres_scale_denominator + 4) / 8
                + 3) / 4,
        )
    }

    /// The positions of the first `n` blocks of a row.
    pub open spec fn row_indices(self, row: int, mi_col: int, n: int) -> Seq<int>
        decreases n,
    {
        if n <= 0 {
            Seq::empty()
        } else {
            self.row_indices(row, mi_col, n - 1).push(
                row * self.grid_cols() + self.first_col(mi_col) + n - 1,
            )
        }
    }

    /// The positions of the blocks of the first `n` rows of the superblock.
    pub open spec fn block_indices(self, mi_row: int, mi_col: int, n: int) -> Seq<int>
        decreases n,
    {
        if n <= 0 {
            Seq::empty()
        } else {
            self.block_indices(mi_row, mi_col, n - 1) + self.row_indices(
                self.first_row(mi_row) + n - 1,
                mi_col,
                self.end_col(mi_col) - self.first_col(mi_col),
            )
        }
    }

    /// The frame can have multipliers from the model.
    pub open spec fn eligible(self, frames: Seq<TplFrameModel>) -> bool {
        &&& self.gf_frame_index < MAX_TPL_FRAME_IDX
        &&& self.gf_frame_index < frames.len()
        &&& frames[self.gf_frame_index as int].is_valid
        &&& (self.update_type == FrameUpdateType::Arf || self.update_type == FrameUpdateType::Gf
            || self.update_type == FrameUpdateType::Kf)
        &&& self.aq_mode == 0
    }
}

/// The positions as machine integers.
pub open spec fn as_ints(s: Seq<usize>) -> Seq<int> {
    s.map_values(|v: usize| v as int)
}

impl TplParams {
    /// The blocks of a superblock whose multipliers are rescaled, and what the
    /// scale is computed from; none where the model does not apply.
    #[must_use]
    pub fn rdmult_sb_window(&self, p: TplRdmultSbParams, mi_row: i32, mi_col: i32) -> (r: Option<
        RdmultSbWindow,
    >)
        requires
            p.eligible(self@.frames) ==> p.in_range(mi_row as int, mi_col as int),
        ensures
            r is Some == p.eligible(self@.frames),
            r matches Some(w) ==> {
                &&& w.boost_index == min_int(trunc_div(p.gfu_boost as int, 100), 15)
                &&& w.layer_depth == min_int(p.layer_depth as int, 6)
                &&& w.orig_qindex == p.base_qindex + p.y_dc_delta_q
                &&& w.new_qindex == p.base_qindex + p.rdmult_delta_qindex + p.y_dc_delta_q
                &&& as_ints(w.indices@) == p.block_indices(
                    mi_row as int,
                    mi_col as int,
                    p.end_row(mi_row as int) - p.first_row(mi_row as int),
                )
            },
    {
        if p.gf_frame_index >= MAX_TPL_FRAME_IDX as usize {
            return None;
        }
        if p.gf_frame_index >= self.frames.len() {
            return None;
        }
        assert(self@.frames[p.gf_frame_index as int] == self.frames[p.gf_frame_index as int]@);
        if !self.frames[p.gf_frame_index].is_valid {
            return None;
        }
        if p.update_type != FrameUpdateType::Arf && p.update_type != FrameUpdateType::Gf
            && p.update_type != FrameUpdateType::Kf {
            return None;
        }
        if p.aq_mode != 0 {
            return None;
        }
        let boost: i64 = p.gfu_boost as i64;
        let hundredths: i64 = if boost < 0 {
            -((-boost) / 100)
        } else {
            boost / 100
        };
        let boost_index: i32 = if hundredths < 15 {
            hundredths as i32
        } else {
            15
        };
        let layer_depth: i32 = if p.layer_depth < 6 {
            p.layer_depth
        } else {
            6
        };
        assert(mi_col * p.superres_scale_denominator >= 0 && p.sb_mi_width
            * p.superres_scale_denominator >= 0) by (nonlinear_arith)
            requires
                mi_col >= 0,
                p.superres_scale_denominator >= 0,
                p.sb_mi_width >= 0,
        ;
        let mi_col_sr: i32 = coded_to_superres_mi(mi_col, p.superres_scale_denominator);
        let mi_cols_sr: i32 = pixels_to_mi(p.superres_upscaled_width);
        let sb_mi_width_sr: i32 = coded_to_superres_mi(p.sb_mi_width, p.superres_scale_denominator);
        let num_cols: i32 = ceil_div4(mi_cols_sr);
        let num_rows: i32 = ceil_div4(p.mi_rows);
        let num_bcols: i32 = ceil_div4(sb_mi_width_sr);
        let num_brows: i32 = ceil_div4(p.sb_mi_height);
        let row_start: i32 = mi_row / RDMULT_BLOCK_MI;
        let col_start: i32 = mi_col_sr / RDMULT_BLOCK_MI;
        let row_end: i32 = if num_rows < row_start + num_brows {
            num_rows
        } else {
            row_start + num_brows
        };
        let col_end: i32 = if num_cols < col_start + num_bcols {
            num_cols
        } else {
            col_start + num_bcols
        };
        let ghost (mr, mc) = (mi_row as int, mi_col as int);
        assert(row_start == p.first_row(mr) && row_end == p.end_row(mr));
        assert(col_start == p.first_col(mc) && col_end == p.end_col(mc));
        let mut indices: Vec<usize> = Vec::new();
        let mut row: i32 = row_start;
        assert(as_ints(indices@) =~= p.block_indices(mr, mc, 0));
        while row < row_end
            invariant
                0 <= row_start <= row,
                row <= row_end || row == row_start,
                row_end <= num_rows,
                num_rows == p.grid_rows(),
                num_cols == p.grid_cols(),
                num_rows * num_cols <= i32::MAX,
                0 <= num_cols,
                row_start == p.first_row(mr),
                0 <= col_start,
                col_start == p.first_col(mc),
                col_end == p.end_col(mc),
                col_end <= num_cols,
                as_ints(indices@) == p.block_indices(mr, mc, row - row_start),
            decreases row_end - row,
        {
            let ghost before = as_ints(indices@);
            assert(before + p.row_indices(row as int, mc, 0) =~= before);
            let mut col: i32 = col_start;
            while col < col_end
                invariant
                    0 <= row < row_end,
                    row_end <= num_rows,
                    num_cols == p.grid_cols(),
                    num_rows * num_cols <= i32::MAX,
                    0 <= col_start <= col,
                    col <= col_end || col == col_start,
                    col_start == p.first_col(mc),
                    col_end <= num_cols,
                    as_ints(indices@) == before + p.row_indices(row as int, mc, col - col_start),
                decreases col_end - col,
            {
                assert(0 <= row * num_cols && row * num_cols + col < num_rows * num_cols)
                    by (nonlinear_arith)
                    requires
                        0 <= row < num_rows,
                        0 <= col < num_cols,
                ;
                let index: i32 = row * num_cols + col;
                let ghost so_far = indices@;
                indices.push(index as usize);
                assert(as_ints(indices@) =~= as_ints(so_far).push(index as int));
                col = col + 1;
                assert(as_ints(indices@) =~= before + p.row_indices(
                    row as int,
                    mc,
                    col - col_start,
                ));
            }
            if col_end < col_start {
                assert(p.row_indices(row as int, mc, col_end - col_start) =~= Seq::empty());
            }
            row = row + 1;
        }
        if row_end < row_start {
            assert(p.block_indices(mr, mc, row_end - row_start) =~= Seq::empty());
        }
        Some(
            RdmultSbWindow {
                indices,
                boost_index,
                layer_depth,
                orig_qindex: p.base_qindex + p.y_dc_delta_q,
                new_qindex: p.base_qindex + p.rdmult_delta_qindex + p.y_dc_delta_q,
            },
        )
    }
}

/// The blocks of a superblock are blocks of the frame.
pub proof fn law_sb_window_in_frame(p: TplRdmultSbParams, mi_row: int, mi_col: int)
    requires
        p.in_range(mi_row, mi_col),
    ensures
        ({
            let s = p.block_indices(mi_row, mi_col, p.end_row(mi_row) - p.first_row(mi_row));
            forall|i: int| 0 <= i < s.len() ==> 0 <= #[trigger] s[i] < p.grid_rows() * p.grid_cols()
        }),
{
    lemma_block_indices(p, mi_row, mi_col, p.end_row(mi_row) - p.first_row(mi_row));
}

proof fn lemma_row_indices(p: TplRdmultSbParams, row: int, mi_col: int, n: int)
    requires
        0 <= row < p.grid_rows(),
        0 <= p.first_col(mi_col),
        p.first_col(mi_col) + n <= p.grid_cols(),
    ensures
        forall|i: int|
            0 <= i < p.row_indices(row, mi_col, n).len() ==> 0 <= #[trigger] p.row_indices(
                row,
                mi_col,
                n,
            )[i] < p.grid_rows() * p.grid_cols(),
    decreases n,
{
    if n > 0 {
        lemma_row_indices(p, row, mi_col, n - 1);
        let (rows, cols, c) = (p.grid_rows(), p.grid_cols(), p.first_col(mi_col) + n - 1);
        assert(0 <= row * cols && row * cols + c < rows * cols) by (nonlinear_arith)
            requires
                0 <= row < rows,
                0 <= c < cols,
        ;
        let t = p.row_indices(row, mi_col, n - 1);
        let s = p.row_indices(row, mi_col, n);
        assert forall|i: int| 0 <= i < s.len() implies 0 <= #[trigger] s[i] < rows * cols by {
            if i < t.len() {
                assert(s[i] == t[i]);
            }
        }
    }
}

proof fn lemma_block_indices(p: TplRdmultSbParams, mi_row: int, mi_col: int, n: int)
    requires
        p.in_range(mi_row, mi_col),
        n <= p.end_row(mi_row) - p.first_row(mi_row),
    ensures
        forall|i: int|
            0 <= i < p.block_indices(mi_row, mi_col, n).len() ==> 0 <= #[trigger] p.block_indices(
                mi_row,
                mi_col,
                n,
            )[i] < p.grid_rows() * p.grid_cols(),
    decreases n,
{
    if n > 0 {
        lemma_block_indices(p, mi_row, mi_col, n - 1);
        assert(mi_col * p.superres_scale_denominator >= 0) by (nonlinear_arith)
            requires
                mi_col >= 0,
                p.superres_scale_denominator >= 0,
        ;
        lemma_row_indices(
            p,
            p.first_row(mi_row) + n - 1,
            mi_col,
            p.end_col(mi_col) - p.first_col(mi_col),
        );
        let t = p.block_indices(mi_row, mi_col, n - 1);
        let u = p.row_indices(
            p.first_row(mi_row) + n - 1,
            mi_col,
            p.end_col(mi_col) - p.first_col(mi_col),
        );
        let s = p.block_indices(mi_row, mi_col, n);
        assert forall|i: int| 0 <= i < s.len() implies 0 <= #[trigger] s[i] < p.grid_rows()
            * p.grid_cols() by {
            if i < t.len() {
                assert(s[i] == t[i]);
            } else {
                assert(s[i] == u[i - t.len()]);
            }
        }
    }
}

/// The blocks of a superblock in the upscaled frame start where its left edge
/// lies there, to nearest, and end where its right edge does or the frame
/// ends: widths and positions grow by the denominator over eight.
pub proof fn law_sb_window_is_scaled(p: TplRdmultSbParams, mi_row: int, mi_col: int)
    requires
        p.in_range(mi_row, mi_col),
    ensures
        ({
            let d = p.superres_scale_denominator;
            let (first, end) = (p.first_col(mi_col), p.end_col(mi_col));
            &&& exists|left: int|
                -4 <= mi_col * d - #[trigger] (8 * left) < 4 && 4 * first <= left < 4 * first + 4
            &&& exists|wide: int|
                -4 <= p.sb_mi_width * d - #[trigger] (8 * wide) < 4 && (end == p.grid_cols() || 4 * (
                end - first) - 4 < wide <= 4 * (end - first))
            &&& end <= p.grid_cols()
            &&& d == 8 ==> 4 * first <= mi_col < 4 * first + 4
            &&& 4 * p.first_row(mi_row) <= mi_row < 4 * p.first_row(mi_row) + 4
            &&& p.end_row(mi_row) <= p.grid_rows()
            &&& p.end_row(mi_row) == p.grid_rows() || 4 * (p.end_row(mi_row) - p.first_row(mi_row))
                - 4 < p.sb_mi_height <= 4 * (p.end_row(mi_row) - p.first_row(mi_row))
        }),
{
    let d = p.superres_scale_denominator as int;
    let left = (mi_col * d + 4) / 8;
    let wide = (p.sb_mi_width * d + 4) / 8;
    assert(-4 <= mi_col * d - 8 * left < 4);
    assert(-4 <= p.sb_mi_width * d - 8 * wide < 4);
    let first = p.first_col(mi_col);
    assert(4 * first <= left < 4 * first + 4);
    if d == 8 {
        assert(mi_col * d == 8 * mi_col) by (nonlinear_arith)
            requires
                d == 8,
        ;
    }
}

impl TplRdmultSbParams {
    /// The blocks of a superblock come row by row, each once: block `x` of row
    /// `y` of the superblock comes after the `y` whole rows above it and the `x`
    /// blocks to its left, and its position in the frame's grid is that of its
    /// row and column there.
    pub proof fn law_blocks_come_row_by_row(self, mi_row: int, mi_col: int, n: int, y: int, x: int)
        requires
            0 <= y < n,
            0 <= x < self.end_col(mi_col) - self.first_col(mi_col),
        ensures
            ({
                let width = self.end_col(mi_col) - self.first_col(mi_col);
                let all = self.block_indices(mi_row, mi_col, n);
                &&& all.len() == n * width
                &&& 0 <= y * width + x < all.len()
                &&& all[y * width + x] == (self.first_row(mi_row) + y) * self.grid_cols()
                    + self.first_col(mi_col) + x
            }),
        decreases n,
    {
        let width = self.end_col(mi_col) - self.first_col(mi_col);
        let row = self.first_row(mi_row) + n - 1;
        let before = self.block_indices(mi_row, mi_col, n - 1);
        let last = self.row_indices(row, mi_col, width);
        self.lemma_row_indices(row, mi_col, width);
        assert(n * width == (n - 1) * width + width) by (nonlinear_arith);
        assert(0 <= y * width && y * width + x < n * width) by (nonlinear_arith)
            requires
                0 <= y < n,
                0 <= x < width,
        ;
        if n > 1 {
            self.law_blocks_come_row_by_row(
                mi_row,
                mi_col,
                n - 1,
                if y < n - 1 {
                    y
                } else {
                    0
                },
                x,
            );
        } else {
            assert(0 * width == 0) by (nonlinear_arith);
        }
        assert(before.len() == (n - 1) * width);
        if y < n - 1 {
            assert(y * width + x < (n - 1) * width) by (nonlinear_arith)
                requires
                    0 <= y < n - 1,
                    0 <= x < width,
            ;
        } else {
            assert(last[x] == row * self.grid_cols() + self.first_col(mi_col) + x);
        }
    }

    proof fn lemma_row_indices(self, row: int, mi_col: int, n: int)
        requires
            0 <= n,
        ensures
            self.row_indices(row, mi_col, n).len() == n,
            forall|x: int|
                0 <= x < n ==> #[trigger] self.row_indices(row, mi_col, n)[x] == row
                    * self.grid_cols() + self.first_col(mi_col) + x,
        decreases n,
    {
        if n > 0 {
            self.lemma_row_indices(row, mi_col, n - 1);
        }
    }
}

/// What a cell weighs in a multiplier: its distortion against the source, its
/// own cost, which is its distortion against the reconstruction alone, and the
/// cost of what depends on it, each as long as it can be held.
pub proof fn law_cell_costs_what_depends_on_it(f: TplFrameModel, pos: int)
    requires
        ({
            let s = f.stats[pos];
            let (m, r) = (f.base_rdmult as int, s.mc_dep_rate as int);
            &&& -crate::rd::MAX_DIST <= s.recrf_dist <= crate::rd::MAX_DIST
            &&& -crate::rd::MAX_DIST <= s.mc_dep_dist <= crate::rd::MAX_DIST
            &&& i64::MIN <= r * m
            &&& r * m + 256 <= i64::MAX
            &&& i64::MIN <= crate::rd::rd_value(m, r, s.mc_dep_dist as int) <= i64::MAX
        }),
    ensures
        cell_cost(f, pos).weight == f.stats[pos].srcrf_dist,
        cell_cost(f, pos).own == 128 * f.stats[pos].recrf_dist,
        cell_cost(f, pos).dependent == crate::rd::rd_value(
            f.base_rdmult as int,
            f.stats[pos].mc_dep_rate as int,
            f.stats[pos].mc_dep_dist as int,
        ),
{
    let s = f.stats[pos];
    crate::tpl_model::law_wide_cost_is_the_cost(f.base_rdmult, s.mc_dep_rate, s.mc_dep_dist);
    assert(s.recrf_dist.wrapping_mul(128) == s.recrf_dist * 128);
}

} // verus!
