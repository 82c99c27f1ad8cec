//! Costs corrected for lost detail, and rules that drop a mode of a
//! reference pair before it is searched.
//!
//! Detail is what a 3x3 Gaussian takes away from a block. Where the source
//! has more of it than the reconstruction, the difference is added to the
//! distortion.

use vstd::prelude::*;

use crate::arith::{max_int, min_int};
use crate::block::{BLK_H_B, BLK_W_B};
use crate::pred_mode::{PredMode, RefMvRow};
use crate::rd::{rd_value, rdcost, MAX_DIST};

verus! {

/// Largest side of a superblock.
pub const MAX_SB_SIZE: usize = 128;

/// The samples of a block are there, and fit in eight bits where the depth is
/// eight.
pub open spec fn holds_block(
    plane: Seq<u16>,
    stride: int,
    w: int,
    h: int,
    high_bitdepth: bool,
) -> bool {
    &&& (h - 1) * stride + w <= plane.len()
    &&& !high_bitdepth ==> forall|y: int, x: int|
        0 <= y < h && 0 <= x < w ==> #[trigger] plane[sample_pos(stride, y, x)] < 256
}

/// Position of a sample in a plane.
pub open spec fn sample_pos(stride: int, y: int, x: int) -> int {
    y * stride + x
}

/// The nearest number to `v` from 0 to `n - 1`.
pub open spec fn into_range(v: int, n: int) -> int {
    max_int(0, min_int(v, n - 1))
}

/// Sample `p` of a block with a border of one sample, laid out in rows of
/// `w` places. A row is two samples longer than that, so that the first two
/// samples of a row lie where the last two of the row before would. The last
/// row alone keeps all its samples.
pub open spec fn bordered_at(plane: Seq<u16>, stride: int, w: int, h: int, p: int) -> u16 {
    let row = min_int(p / w, h + 1);
    let col = p - row * w;
    plane[sample_pos(stride, into_range(row - 1, h), into_range(col - 1, w))]
}

/// A block with its border: see [`bordered_at`].
pub open spec fn bordered(plane: Seq<u16>, stride: int, w: int, h: int) -> Seq<u16> {
    Seq::new(((h + 2) * w + 2) as nat, |p: int| bordered_at(plane, stride, w, h, p))
}

/// The Gaussian of the nine samples of which the first is `p`.
pub open spec fn smoothed(s: Seq<u16>, w: int, p: int) -> int {
    (s[p] + 2 * s[p + 1] + s[p + 2] + 2 * s[p + w] + 4 * s[p + w + 1] + 2 * s[p + w + 2] + s[p + 2
        * w] + 2 * s[p + 2 * w + 1] + s[p + 2 * w + 2]) / 16
}

/// What the Gaussian takes away from a sample.
pub open spec fn detail(s: Seq<u16>, w: int, p: int) -> int {
    s[p + w + 1] - smoothed(s, w, p)
}

/// Sum of the squared details of the first `n` samples of a row.
pub open spec fn row_detail(s: Seq<u16>, w: int, start: int, n: int) -> int
    decreases n,
{
    if n <= 0 {
        0
    } else {
        let d = detail(s, w, start + n - 1);
        row_detail(s, w, start, n - 1) + d * d
    }
}

/// Sum of the squared details of the first `n` rows.
pub open spec fn block_detail(s: Seq<u16>, w: int, n: int) -> int
    decreases n,
{
    if n <= 0 {
        0
    } else {
        block_detail(s, w, n - 1) + row_detail(s, w, (n - 1) * w, w)
    }
}

/// The detail of a block in a plane, times 16.
pub open spec fn plane_detail(plane: Seq<u16>, stride: int, bsize: int) -> int {
    let w = BLK_W_B[bsize] as int;
    let h = BLK_H_B[bsize] as int;
    16 * block_detail(bordered(plane, stride, w, h), w, h)
}

/// A block with its border.
fn with_border(plane: &[u16], stride: usize, w: usize, h: usize) -> (s: Vec<u16>)
    requires
        4 <= w <= 128,
        4 <= h <= 128,
        (h - 1) * stride + w <= plane.len(),
    ensures
        s@ == bordered(plane@, stride as int, w as int, h as int),
{
    let mut s: Vec<u16> = Vec::new();
    assert((h + 2) * w <= 130 * 128) by (nonlinear_arith)
        requires
            4 <= w <= 128,
            4 <= h <= 128,
    ;
    let n: usize = (h + 2) * w + 2;
    for p in 0..n
        invariant
            4 <= w <= 128,
            4 <= h <= 128,
            (h - 1) * stride + w <= plane.len(),
            n == (h + 2) * w + 2,
            n <= 130 * 128 + 2,
            s.len() == p,
            forall|k: int|
                0 <= k < p ==> #[trigger] s[k] == bordered_at(
                    plane@,
                    stride as int,
                    w as int,
                    h as int,
                    k,
                ),
    {
        let in_rows: usize = p / w;
        let row: usize = if in_rows < h + 1 {
            in_rows
        } else {
            h + 1
        };
        proof {
            lemma_bordered_col(p as int, w as int, h as int, row as int);
        }
        let col: usize = p - row * w;
        let y: usize = if row == 0 {
            0
        } else if row - 1 < h {
            row - 1
        } else {
            h - 1
        };
        let x: usize = if col == 0 {
            0
        } else if col - 1 < w {
            col - 1
        } else {
            w - 1
        };
        assert(y * stride <= (h - 1) * stride) by (nonlinear_arith)
            requires
                0 <= y <= h - 1,
                0 <= stride,
        ;
        s.push(plane[y * stride + x]);
    }
    assert(s@ =~= bordered(plane@, stride as int, w as int, h as int));
    s
}

proof fn lemma_bordered_col(p: int, w: int, h: int, row: int)
    requires
        1 <= w,
        0 <= h,
        0 <= p < (h + 2) * w + 2,
        row == min_int(p / w, h + 1),
    ensures
        0 <= row,
        0 <= row * w <= p,
        p - row * w <= w + 1,
{
    assert(0 <= p / w && (p / w) * w <= p < (p / w) * w + w) by (nonlinear_arith)
        requires
            0 <= p,
            1 <= w,
    ;
    let q = p / w;
    if row != q {
        assert((h + 1) * w <= q * w && (h + 2) * w == (h + 1) * w + w) by (nonlinear_arith)
            requires
                h + 1 <= q,
                1 <= w,
        ;
    }
    assert(0 <= row * w) by (nonlinear_arith)
        requires
            0 <= row,
            1 <= w,
    ;
}

/// The detail of a bordered block.
fn detail_sum(s: &Vec<u16>, w: usize, h: usize) -> (r: i64)
    requires
        4 <= w <= 128,
        4 <= h <= 128,
        s.len() == (h + 2) * w + 2,
    ensures
        r == block_detail(s@, w as int, h as int),
        0 <= r <= 0x1_0000_0000 * h * w,
{
    assert((h + 2) * w <= 130 * 128) by (nonlinear_arith)
        requires
            4 <= w <= 128,
            4 <= h <= 128,
    ;
    let mut var: i64 = 0;
    for y in 0..h
        invariant
            4 <= w <= 128,
            4 <= h <= 128,
            (h + 2) * w <= 130 * 128,
            s.len() == (h + 2) * w + 2,
            var == block_detail(s@, w as int, y as int),
            0 <= var <= 0x80_0000_0000 * y,
            var <= 0x1_0000_0000 * (y * w),
    {
        assert(0 <= y * w && (y + 1) * w == y * w + w && (y + 1) * w <= h * w && (h + 2) * w == h
            * w + 2 * w) by (nonlinear_arith)
            requires
                0 <= y < h,
                4 <= w,
        ;
        let start: usize = y * w;
        let ghost before = var;
        for x in 0..w
            invariant
                4 <= w <= 128,
                y < h <= 128,
                start == y * w,
                start + 3 * w + 2 <= s.len(),
                s.len() <= 130 * 128 + 2,
                0 <= before <= 0x80_0000_0000 * y,
                before <= 0x1_0000_0000 * (y * w),
                var == before + row_detail(s@, w as int, start as int, x as int),
                before <= var <= before + 0x1_0000_0000 * x,
        {
            let p: usize = start + x;
            let sum: i32 = (s[p] as i32 + 2 * s[p + 1] as i32 + s[p + 2] as i32 + 2 * s[p
                + w] as i32 + 4 * s[p + w + 1] as i32 + 2 * s[p + w + 2] as i32 + s[p + 2
                * w] as i32 + 2 * s[p + 2 * w + 1] as i32 + s[p + 2 * w + 2] as i32) / 16;
            let diff: i64 = (s[p + w + 1] as i32 - sum) as i64;
            assert(diff == detail(s@, w as int, p as int));
            assert(0 <= diff * diff <= 0x1_0000_0000) by (nonlinear_arith)
                requires
                    -65536 <= diff <= 65536,
            ;
            var = var + diff * diff;
        }
        assert((y + 1) * w == y * w + w) by (nonlinear_arith);
    }
    assert(0x1_0000_0000 * (h * w) == 0x1_0000_0000 * h * w) by (nonlinear_arith);
    var
}

/// The details of the source and of the reconstruction of a block.
pub fn get_variance_stats(
    bsize: usize,
    src: &[u16],
    src_stride: usize,
    dst: &[u16],
    dst_stride: usize,
    is_hbd: bool,
) -> (r: (i64, i64))
    requires
        bsize < 22,
        holds_block(
            src@,
            src_stride as int,
            BLK_W_B[bsize as int] as int,
            BLK_H_B[bsize as int] as int,
            is_hbd,
        ),
        holds_block(
            dst@,
            dst_stride as int,
            BLK_W_B[bsize as int] as int,
            BLK_H_B[bsize as int] as int,
            is_hbd,
        ),
    ensures
        r.0 == plane_detail(src@, src_stride as int, bsize as int),
        r.1 == plane_detail(dst@, dst_stride as int, bsize as int),
        0 <= r.0 <= 0x4_0000_0000_0000,
        0 <= r.1 <= 0x4_0000_0000_0000,
{
    proof {
        crate::block::law_block_dimensions(bsize as int);
    }
    let w: usize = BLK_W_B[bsize];
    let h: usize = BLK_H_B[bsize];
    let rec: Vec<u16> = with_border(dst, dst_stride, w, h);
    let rec_var: i64 = detail_sum(&rec, w, h);
    let source: Vec<u16> = with_border(src, src_stride, w, h);
    let src_var: i64 = detail_sum(&source, w, h);
    assert(0x1_0000_0000 * h * w <= 0x1_0000_0000 * 0x4000) by (nonlinear_arith)
        requires
            0 <= w <= 128,
            0 <= h <= 128,
    ;
    (16 * src_var, 16 * rec_var)
}

/// A block whose samples are all alike has no detail.
pub proof fn law_flat_block_has_no_detail(plane: Seq<u16>, stride: int, bsize: int, v: u16)
    requires
        0 <= bsize < 22,
        forall|y: int, x: int|
            0 <= y < BLK_H_B[bsize] && 0 <= x < BLK_W_B[bsize] ==> #[trigger] plane[sample_pos(
                stride,
                y,
                x,
            )] == v,
    ensures
        plane_detail(plane, stride, bsize) == 0,
{
    let w = BLK_W_B[bsize] as int;
    let h = BLK_H_B[bsize] as int;
    let s = bordered(plane, stride, w, h);
    assert forall|p: int| 0 <= p < s.len() implies #[trigger] s[p] == v by {
        lemma_bordered_col(p, w, h, min_int(p / w, h + 1));
    }
    lemma_flat_rows(s, w, h, h, v);
}

proof fn lemma_flat_rows(s: Seq<u16>, w: int, h: int, n: int, v: u16)
    requires
        4 <= w,
        0 <= n <= h,
        s.len() == (h + 2) * w + 2,
        forall|p: int| 0 <= p < s.len() ==> #[trigger] s[p] == v,
    ensures
        block_detail(s, w, n) == 0,
    decreases n,
{
    if n > 0 {
        lemma_flat_rows(s, w, h, n - 1, v);
        assert(0 <= (n - 1) * w && (n - 1) * w + 3 * w <= (h + 2) * w) by (nonlinear_arith)
            requires
                1 <= n <= h,
                4 <= w,
        ;
        lemma_flat_row(s, w, (n - 1) * w, w, v);
    }
}

proof fn lemma_flat_row(s: Seq<u16>, w: int, start: int, n: int, v: u16)
    requires
        4 <= w,
        0 <= n <= w,
        0 <= start,
        start + 3 * w + 2 <= s.len(),
        forall|p: int| 0 <= p < s.len() ==> #[trigger] s[p] == v,
    ensures
        row_detail(s, w, start, n) == 0,
    decreases n,
{
    if n > 0 {
        lemma_flat_row(s, w, start, n - 1, v);
        let d = detail(s, w, start + n - 1);
        assert(d == 0);
        assert(d * d == 0) by (nonlinear_arith)
            requires
                d == 0,
        ;
    }
}

/// Tunings under which blocks predicted from a frame cost an eighth more.
pub const AOM_TUNE_IQ: i32 = 10;

pub const AOM_TUNE_SSIMULACRA2: i32 = 11;

/// What decides whether and how a cost is corrected.
#[derive(Clone, Copy, Debug)]
pub struct AdjustGates {
    pub tuning: i32,
    pub sharpness: i32,
    /// A key, golden or alternate reference frame.
    pub frame_is_kf_gf_arf: bool,
    pub rdmult: i32,
}

impl AdjustGates {
    /// The cost grows by an eighth.
    pub open spec fn adds_an_eighth(self, is_inter_pred: bool) -> bool {
        (self.tuning == AOM_TUNE_IQ || self.tuning == AOM_TUNE_SSIMULACRA2) && is_inter_pred
    }

    /// The lost detail is added.
    pub open spec fn adds_detail(self, is_inter_pred: bool) -> bool {
        !self.adds_an_eighth(is_inter_pred) && self.sharpness == 3 && !self.frame_is_kf_gf_arf
    }
}

/// The detail that the reconstruction of a block has lost.
pub open spec fn lost_detail(
    bsize: int,
    src: Seq<u16>,
    src_stride: int,
    dst: Seq<u16>,
    dst_stride: int,
) -> int {
    max_int(0, plane_detail(src, src_stride, bsize) - plane_detail(dst, dst_stride, bsize))
}

/// A cost corrected for `lost` detail.
pub open spec fn corrected_cost(
    rd_cost: int,
    is_inter_pred: bool,
    gates: AdjustGates,
    lost: int,
) -> int {
    if gates.adds_an_eighth(is_inter_pred) {
        rd_cost + rd_cost / 8
    } else if gates.adds_detail(is_inter_pred) && lost > 0 {
        rd_cost + rd_value(gates.rdmult as int, 0, lost)
    } else {
        rd_cost
    }
}

/// Correct a cost.
pub fn adjust_cost(
    rd_cost: i64,
    is_inter_pred: bool,
    gates: AdjustGates,
    bsize: usize,
    src: &[u16],
    src_stride: usize,
    dst: &[u16],
    dst_stride: usize,
    is_hbd: bool,
) -> (r: i64)
    requires
        gates.adds_detail(is_inter_pred) ==> {
            let w = BLK_W_B[bsize as int] as int;
            let h = BLK_H_B[bsize as int] as int;
            &&& bsize < 22
            &&& holds_block(src@, src_stride as int, w, h, is_hbd)
            &&& holds_block(dst@, dst_stride as int, w, h, is_hbd)
        },
        i64::MIN <= corrected_cost(
            rd_cost as int,
            is_inter_pred,
            gates,
            lost_detail(bsize as int, src@, src_stride as int, dst@, dst_stride as int),
        ) <= i64::MAX,
    ensures
        r == corrected_cost(
            rd_cost as int,
            is_inter_pred,
            gates,
            lost_detail(bsize as int, src@, src_stride as int, dst@, dst_stride as int),
        ),
{
    if (gates.tuning == AOM_TUNE_IQ || gates.tuning == AOM_TUNE_SSIMULACRA2) && is_inter_pred {
        return rd_cost + eighth(rd_cost);
    }
    if gates.sharpness != 3 || gates.frame_is_kf_gf_arf {
        return rd_cost;
    }
    let (src_var, rec_var): (i64, i64) = get_variance_stats(
        bsize,
        src,
        src_stride,
        dst,
        dst_stride,
        is_hbd,
    );
    if src_var <= rec_var {
        return rd_cost;
    }
    rd_cost + rdcost(gates.rdmult, 0, src_var - rec_var)
}

/// An eighth, rounded down.
fn eighth(v: i64) -> (r: i64)
    ensures
        r == v as int / 8,
{
    assert(v >> 3 == v / 8) by (bit_vector);
    v >> 3
}

/// Rate, distortion and cost.
#[derive(Clone, Copy, Debug, PartialEq, Eq, Structural)]
pub struct RdStatsCore {
    pub rate: i32,
    pub dist: i64,
    pub rdcost: i64,
}

impl Default for RdStatsCore {
    fn default() -> (r: Self)
        ensures
            r == (RdStatsCore { rate: 0, dist: 0, rdcost: 0 }),
    {
        RdStatsCore { rate: 0, dist: 0, rdcost: 0 }
    }
}

/// Distortion and cost corrected for `lost` detail. An eighth is added to
/// each on its own; lost detail is added to the distortion, and the cost
/// follows from it.
pub open spec fn corrected_stats(
    rd: RdStatsCore,
    is_inter_pred: bool,
    gates: AdjustGates,
    lost: int,
) -> (int, int) {
    if gates.adds_an_eighth(is_inter_pred) {
        (rd.dist + rd.dist as int / 8, rd.rdcost + rd.rdcost as int / 8)
    } else if gates.adds_detail(is_inter_pred) && lost > 0 {
        (rd.dist + lost, rd_value(gates.rdmult as int, rd.rate as int, rd.dist + lost))
    } else {
        (rd.dist as int, rd.rdcost as int)
    }
}

/// Correct rate-distortion figures.
pub fn adjust_rdcost(
    rd: &mut RdStatsCore,
    is_inter_pred: bool,
    gates: AdjustGates,
    bsize: usize,
    src: &[u16],
    src_stride: usize,
    dst: &[u16],
    dst_stride: usize,
    is_hbd: bool,
)
    requires
        gates.adds_detail(is_inter_pred) ==> {
            let w = BLK_W_B[bsize as int] as int;
            let h = BLK_H_B[bsize as int] as int;
            &&& bsize < 22
            &&& holds_block(src@, src_stride as int, w, h, is_hbd)
            &&& holds_block(dst@, dst_stride as int, w, h, is_hbd)
            &&& -MAX_DIST <= old(rd).dist <= MAX_DIST - 0x4_0000_0000_0000
        },
        gates.adds_an_eighth(is_inter_pred) ==> {
            &&& i64::MIN <= old(rd).dist + old(rd).dist as int / 8 <= i64::MAX
            &&& i64::MIN <= old(rd).rdcost + old(rd).rdcost as int / 8 <= i64::MAX
        },
    ensures
        final(rd).rate == old(rd).rate,
        ({
            let after = corrected_stats(
                *old(rd),
                is_inter_pred,
                gates,
                lost_detail(bsize as int, src@, src_stride as int, dst@, dst_stride as int),
            );
            final(rd).dist == after.0 && final(rd).rdcost == after.1
        }),
{
    if (gates.tuning == AOM_TUNE_IQ || gates.tuning == AOM_TUNE_SSIMULACRA2) && is_inter_pred {
        rd.dist = rd.dist + eighth(rd.dist);
        rd.rdcost = rd.rdcost + eighth(rd.rdcost);
        return;
    }
    if gates.sharpness != 3 || gates.frame_is_kf_gf_arf {
        return;
    }
    let (src_var, rec_var): (i64, i64) = get_variance_stats(
        bsize,
        src,
        src_stride,
        dst,
        dst_stride,
        is_hbd,
    );
    if src_var <= rec_var {
        return;
    }
    rd.dist = rd.dist + (src_var - rec_var);
    rd.rdcost = rdcost(gates.rdmult, rd.rate, rd.dist);
}

/// A correction never makes a block cheaper.
pub proof fn law_correction_never_helps(
    rd_cost: int,
    is_inter_pred: bool,
    gates: AdjustGates,
    lost: int,
)
    requires
        rd_cost >= 0,
        lost >= 0,
    ensures
        corrected_cost(rd_cost, is_inter_pred, gates, lost) >= rd_cost,
{
    assert(0 * gates.rdmult as int == 0) by (nonlinear_arith);
}

/// A reconstruction equal to the source loses no detail: outside the tunings
/// that favour blocks predicted within the frame its cost stays.
pub proof fn law_exact_reconstruction_keeps_its_cost(
    rd_cost: int,
    is_inter_pred: bool,
    gates: AdjustGates,
    bsize: int,
    src: Seq<u16>,
    stride: int,
)
    requires
        !gates.adds_an_eighth(is_inter_pred),
    ensures
        corrected_cost(
            rd_cost,
            is_inter_pred,
            gates,
            lost_detail(bsize, src, stride, src, stride),
        ) == rd_cost,
{
}

/// The frame header allows single references only.
pub const SINGLE_REFERENCE: i32 = 0;

/// A block is large enough for two references.
pub open spec fn takes_two_references(bsize: int) -> bool {
    BLK_W_B[bsize] >= 8 && BLK_H_B[bsize] >= 8
}

/// See [`takes_two_references`].
pub fn is_comp_ref_allowed(bsize: usize) -> (r: bool)
    requires
        bsize < 22,
    ensures
        r == takes_two_references(bsize as int),
{
    BLK_W_B[bsize] >= 8 && BLK_H_B[bsize] >= 8
}

/// A block size, from 8x8 to 32x32, may blend prediction from a frame and
/// from within it.
pub fn is_interintra_allowed_bsize(bsize: usize) -> (r: bool)
    ensures
        r == (3 <= bsize <= 9),
{
    bsize >= 3 && bsize <= 9
}

/// Bit of a reference in a set of references.
pub open spec fn ref_bit(ref_frame: int) -> i32 {
    if ref_frame <= 0 {
        0i32
    } else {
        1i32 << ((ref_frame - 1) as u32)
    }
}

/// See [`ref_bit`].
pub fn ref_frame_flag(ref_frame: i32) -> (r: i32)
    requires
        ref_frame <= 32,
    ensures
        r == ref_bit(ref_frame as int),
{
    if ref_frame <= 0 {
        return 0;
    }
    let n: u32 = (ref_frame - 1) as u32;
    1i32 << n
}

/// The bits of the references are apart.
pub proof fn law_reference_bits_are_apart(a: int, b: int)
    requires
        1 <= a < b <= 7,
    ensures
        ref_bit(a) & ref_bit(b) == 0,
        ref_bit(a) != 0,
{
    let m: u32 = (a - 1) as u32;
    let n: u32 = (b - 1) as u32;
    assert((1i32 << m) & (1i32 << n) == 0 && (1i32 << m) != 0) by (bit_vector)
        requires
            m < n,
            n <= 6,
    ;
}

/// A mode of a pair of references cannot be coded.
pub open spec fn cannot_be_coded(
    bsize: int,
    mode: PredMode,
    ref_frames: [i32; 2],
    ref_frame_flags: i32,
    frame_is_intra_only: bool,
    reference_mode: i32,
    seg_ref_frame_active: bool,
) -> bool {
    ||| ref_frames[1] > 0 && (!takes_two_references(bsize) || ref_frame_flags & ref_bit(
        ref_frames[1] as int,
    ) == 0 || frame_is_intra_only || reference_mode == SINGLE_REFERENCE || seg_ref_frame_active)
    ||| ref_frames[0] > 0 && ref_frames[1] == 0 && (!(3 <= bsize <= 9) || !mode.is_single())
}

/// See [`cannot_be_coded`].
pub fn inter_mode_compatible_skip(
    bsize: usize,
    curr_mode: PredMode,
    ref_frames: [i32; 2],
    ref_frame_flags: i32,
    frame_is_intra_only: bool,
    reference_mode: i32,
    seg_ref_frame_active: bool,
) -> (r: bool)
    requires
        ref_frames[1] > 0 ==> bsize < 22 && ref_frames[1] <= 32,
    ensures
        r == cannot_be_coded(
            bsize as int,
            curr_mode,
            ref_frames,
            ref_frame_flags,
            frame_is_intra_only,
            reference_mode,
            seg_ref_frame_active,
        ),
{
    if ref_frames[1] > 0 {
        if !is_comp_ref_allowed(bsize) {
            return true;
        }
        if ref_frame_flags & ref_frame_flag(ref_frames[1]) == 0 {
            return true;
        }
        if frame_is_intra_only {
            return true;
        }
        if reference_mode == SINGLE_REFERENCE {
            return true;
        }
        if seg_ref_frame_active {
            return true;
        }
    }
    if ref_frames[0] > 0 && ref_frames[1] == 0 {
        if !is_interintra_allowed_bsize(bsize) {
            return true;
        }
        if !curr_mode.is_inter_singleref() {
            return true;
        }
    }
    false
}

/// Weight from which a candidate vector counts as strong.
pub const REF_CAT_LEVEL: u16 = 640;

/// The references nearest in time.
#[derive(Clone, Copy, Debug)]
pub struct RefFrameDistanceInfo {
    pub nearest_past_ref: i32,
    pub nearest_future_ref: i32,
}

/// A candidate vector is weak.
pub open spec fn weak_candidate(row: RefMvRow, mode: PredMode, ref_mv_idx: int) -> bool {
    row.weight[ref_mv_idx + if mode.near() {
        1int
    } else {
        0
    }] < REF_CAT_LEVEL
}

/// A candidate after the first is dropped for its weakness: for the second
/// and third last frames always, for others where the quantizer says so and
/// the reference is not among the nearest.
pub open spec fn dropped_as_weak(
    reduce_inter_modes: i32,
    dist: RefFrameDistanceInfo,
    mode: PredMode,
    ref_frames: [i32; 2],
    ref_mv_idx: int,
    prune_by_qindex: bool,
    row: RefMvRow,
) -> bool {
    &&& reduce_inter_modes != 0 && ref_mv_idx > 0 && weak_candidate(row, mode, ref_mv_idx)
    &&& {
        ||| ref_frames[0] == 2
        ||| ref_frames[0] == 3
        ||| ref_frames[1] == 2
        ||| ref_frames[1] == 3
        ||| reduce_inter_modes >= 2 && ref_frames[1] <= 0 && mode.has_new() && ref_frames[0]
            != dist.nearest_past_ref && ref_frames[0] != dist.nearest_future_ref && prune_by_qindex
    }
}

/// The rate that a candidate costs before anything is searched, in 32 bits.
pub open spec fn rate_floor(ref_frame_cost: i32, single_comp_cost: i32, drl_cost: i32) -> i32 {
    ((ref_frame_cost + single_comp_cost + drl_cost) as i64) as i32
}

/// A candidate vector is dropped before it is searched, and the candidate that
/// is current from then on.
///
/// `prune_by_qindex` is what the quantizer says of this candidate,
/// `newmv_valid` whether the single vectors that a compound mode builds on are
/// there, `drl_cost` the rate of naming the candidate.
pub open spec fn breakout(
    reduce_inter_modes: i32,
    dist: RefFrameDistanceInfo,
    mode: PredMode,
    ref_frames: [i32; 2],
    ref_mv_idx: int,
    prune_by_qindex: bool,
    rdmult: i32,
    ref_best_rd: i64,
    row: RefMvRow,
    rate: i32,
    newmv_valid: bool,
    prev_ref_mv_idx: int,
) -> (bool, int) {
    if dropped_as_weak(
        reduce_inter_modes,
        dist,
        mode,
        ref_frames,
        ref_mv_idx,
        prune_by_qindex,
        row,
    ) {
        (true, prev_ref_mv_idx)
    } else {
        (
            (ref_frames[1] > 0 && !newmv_valid) || (rd_value(rdmult as int, rate as int, 0)
                > ref_best_rd && !(mode is NearestMv) && !(mode is NearestNearestMv)),
            ref_mv_idx,
        )
    }
}

/// See [`breakout`].
pub fn ref_mv_idx_early_breakout(
    reduce_inter_modes: i32,
    dist: RefFrameDistanceInfo,
    mode: PredMode,
    ref_frames: [i32; 2],
    ref_mv_idx: usize,
    prune_by_qindex: bool,
    rdmult: i32,
    ref_best_rd: i64,
    row: &RefMvRow,
    drl_cost: i32,
    ref_frame_cost: i32,
    single_comp_cost: i32,
    newmv_valid: bool,
    prev_ref_mv_idx: usize,
) -> (r: (bool, usize))
    requires
        ref_mv_idx < 3,
    ensures
        (r.0, r.1 as int) == breakout(
            reduce_inter_modes,
            dist,
            mode,
            ref_frames,
            ref_mv_idx as int,
            prune_by_qindex,
            rdmult,
            ref_best_rd,
            *row,
            rate_floor(ref_frame_cost, single_comp_cost, drl_cost),
            newmv_valid,
            prev_ref_mv_idx as int,
        ),
{
    let is_comp_pred: bool = ref_frames[1] > 0;
    let near: usize = if mode.have_nearmv() {
        1
    } else {
        0
    };
    if reduce_inter_modes != 0 && ref_mv_idx > 0 {
        let weak: bool = row.weight[ref_mv_idx + near] < REF_CAT_LEVEL;
        if (ref_frames[0] == 2 || ref_frames[0] == 3 || ref_frames[1] == 2 || ref_frames[1] == 3)
            && weak {
            return (true, prev_ref_mv_idx);
        }
        if reduce_inter_modes >= 2 && !is_comp_pred && mode.have_newmv() {
            let closest: bool = ref_frames[0] == dist.nearest_past_ref || ref_frames[0]
                == dist.nearest_future_ref;
            if !closest && prune_by_qindex && weak {
                return (true, prev_ref_mv_idx);
            }
        }
    }
    if is_comp_pred && !newmv_valid {
        return (true, ref_mv_idx);
    }
    let est_rd_rate: i64 = ref_frame_cost as i64 + single_comp_cost as i64 + drl_cost as i64;
    let rate: i32 = #[verifier::truncate] (est_rd_rate as i32);
    let over_budget: bool = rdcost(rdmult, rate, 0) > ref_best_rd;
    if over_budget && !matches!(mode, PredMode::NearestMv | PredMode::NearestNearestMv) {
        return (true, ref_mv_idx);
    }
    (false, ref_mv_idx)
}

/// The nearest candidate is never dropped for its rate: the first one stays
/// unless a compound mode lacks its single vectors.
pub proof fn law_nearest_candidate_stays(
    reduce_inter_modes: i32,
    dist: RefFrameDistanceInfo,
    mode: PredMode,
    ref_frames: [i32; 2],
    prune_by_qindex: bool,
    rdmult: i32,
    ref_best_rd: i64,
    row: RefMvRow,
    rate: i32,
    newmv_valid: bool,
    prev_ref_mv_idx: int,
)
    requires
        mode is NearestMv || mode is NearestNearestMv,
        ref_frames[1] > 0 ==> newmv_valid,
    ensures
        breakout(
            reduce_inter_modes,
            dist,
            mode,
            ref_frames,
            0,
            prune_by_qindex,
            rdmult,
            ref_best_rd,
            row,
            rate,
            newmv_valid,
            prev_ref_mv_idx,
        ) == (false, 0int),
{
}

/// The Gaussian weighs a sample by four sixteenths, its direct neighbours by
/// two and the diagonal ones by one: a sample that is 16 higher raises the
/// smoothed one by as much.
pub proof fn law_gaussian_weighs_by_distance(s: Seq<u16>, t: Seq<u16>, w: int, p: int, y: int, x: int)
    requires
        3 <= w,
        0 <= p,
        p + 2 * w + 2 < s.len(),
        0 <= y < 3,
        0 <= x < 3,
        t.len() == s.len(),
        t[p + y * w + x] == s[p + y * w + x] + 16,
        forall|k: int| 0 <= k < s.len() && k != p + y * w + x ==> t[k] == #[trigger] s[k],
    ensures
        smoothed(t, w, p) - smoothed(s, w, p) == (if y == 1 {
            2int
        } else {
            1
        }) * (if x == 1 {
            2int
        } else {
            1
        }),
{
    assert(y * w == 0 || y * w == w || y * w == 2 * w) by (nonlinear_arith)
        requires
            0 <= y < 3,
    ;
    assert(y == 0 ==> y * w == 0) by (nonlinear_arith);
    assert(y == 1 ==> y * w == w) by (nonlinear_arith);
    assert(y == 2 ==> y * w == 2 * w) by (nonlinear_arith);
    assert(p + w < s.len() && p + 1 < s.len());
    assert(t[p] - s[p] == if y == 0 && x == 0 { 16int } else { 0 });
    assert(t[p + 1] - s[p + 1] == if y == 0 && x == 1 { 16int } else { 0 });
    assert(t[p + 2] - s[p + 2] == if y == 0 && x == 2 { 16int } else { 0 });
    assert(t[p + w] - s[p + w] == if y == 1 && x == 0 { 16int } else { 0 });
    assert(t[p + w + 1] - s[p + w + 1] == if y == 1 && x == 1 { 16int } else { 0 });
    assert(t[p + w + 2] - s[p + w + 2] == if y == 1 && x == 2 { 16int } else { 0 });
    assert(t[p + 2 * w] - s[p + 2 * w] == if y == 2 && x == 0 { 16int } else { 0 });
    assert(t[p + 2 * w + 1] - s[p + 2 * w + 1] == if y == 2 && x == 1 { 16int } else { 0 });
    assert(t[p + 2 * w + 2] - s[p + 2 * w + 2] == if y == 2 && x == 2 { 16int } else { 0 });
}

/// Detail is one of differences: a block that is brighter throughout by the
/// same amount has the same detail.
pub proof fn law_brightness_is_no_detail(
    plane: Seq<u16>,
    other: Seq<u16>,
    stride: int,
    bsize: int,
    by: int,
)
    requires
        0 <= bsize < 22,
        forall|y: int, x: int|
            0 <= y < BLK_H_B[bsize] && 0 <= x < BLK_W_B[bsize] ==> other[sample_pos(stride, y, x)]
                == #[trigger] plane[sample_pos(stride, y, x)] + by,
    ensures
        plane_detail(other, stride, bsize) == plane_detail(plane, stride, bsize),
{
    let w = BLK_W_B[bsize] as int;
    let h = BLK_H_B[bsize] as int;
    let (s, t) = (bordered(plane, stride, w, h), bordered(other, stride, w, h));
    assert forall|p: int| 0 <= p < s.len() implies t[p] == #[trigger] s[p] + by by {
        let row = min_int(p / w, h + 1);
        lemma_bordered_col(p, w, h, row);
        let (y, x) = (into_range(row - 1, h), into_range(p - row * w - 1, w));
        assert(other[sample_pos(stride, y, x)] == plane[sample_pos(stride, y, x)] + by);
    }
    lemma_brighter_rows(s, t, w, h, h, by);
}

proof fn lemma_brighter_rows(s: Seq<u16>, t: Seq<u16>, w: int, h: int, n: int, by: int)
    requires
        4 <= w,
        0 <= n <= h,
        s.len() == (h + 2) * w + 2,
        t.len() == s.len(),
        forall|p: int| 0 <= p < s.len() ==> t[p] == #[trigger] s[p] + by,
    ensures
        block_detail(t, w, n) == block_detail(s, w, n),
    decreases n,
{
    if n > 0 {
        lemma_brighter_rows(s, t, w, h, n - 1, by);
        assert(0 <= (n - 1) * w && (n - 1) * w + 3 * w <= (h + 2) * w) by (nonlinear_arith)
            requires
                1 <= n <= h,
                4 <= w,
        ;
        lemma_brighter_row(s, t, w, (n - 1) * w, w, by);
    }
}

proof fn lemma_brighter_row(s: Seq<u16>, t: Seq<u16>, w: int, start: int, n: int, by: int)
    requires
        4 <= w,
        0 <= n <= w,
        0 <= start,
        start + 3 * w + 2 <= s.len(),
        t.len() == s.len(),
        forall|p: int| 0 <= p < s.len() ==> t[p] == #[trigger] s[p] + by,
    ensures
        row_detail(t, w, start, n) == row_detail(s, w, start, n),
    decreases n,
{
    if n > 0 {
        lemma_brighter_row(s, t, w, start, n - 1, by);
        let p = start + n - 1;
        assert(s[p] + by == t[p] && s[p + 1] + by == t[p + 1] && s[p + 2] + by == t[p + 2]);
        assert(s[p + w] + by == t[p + w] && s[p + w + 1] + by == t[p + w + 1] && s[p + w + 2] + by
            == t[p + w + 2]);
        assert(s[p + 2 * w] + by == t[p + 2 * w] && s[p + 2 * w + 1] + by == t[p + 2 * w + 1]
            && s[p + 2 * w + 2] + by == t[p + 2 * w + 2]);
        assert(smoothed(t, w, p) == smoothed(s, w, p) + by);
        assert(detail(t, w, p) == detail(s, w, p));
    }
}

/// A block stands inside its border: all samples but the last of each row lie
/// one row down and one column on.
pub proof fn law_block_stands_inside_its_border(
    plane: Seq<u16>,
    stride: int,
    w: int,
    h: int,
    y: int,
    x: int,
)
    requires
        0 <= y < h,
        0 <= x < w - 1,
    ensures
        bordered(plane, stride, w, h)[(y + 1) * w + x + 1] == plane[sample_pos(stride, y, x)],
{
    let p = (y + 1) * w + x + 1;
    assert(p / w == y + 1 && 0 <= p < (h + 2) * w + 2) by (nonlinear_arith)
        requires
            p == (y + 1) * w + x + 1,
            0 <= y < h,
            0 <= x < w - 1,
    ;
}

/// The two ways to correct a block agree: a cost that follows from rate and
/// distortion is corrected to the cost of the corrected distortion where detail
/// was lost, and to the same eighth more under the tunings.
pub proof fn law_corrections_agree(
    rd: RdStatsCore,
    is_inter_pred: bool,
    gates: AdjustGates,
    lost: int,
)
    requires
        rd.rdcost == rd_value(gates.rdmult as int, rd.rate as int, rd.dist as int),
    ensures
        corrected_stats(rd, is_inter_pred, gates, lost).1 == corrected_cost(
            rd.rdcost as int,
            is_inter_pred,
            gates,
            lost,
        ),
        !gates.adds_an_eighth(is_inter_pred) ==> corrected_stats(
            rd,
            is_inter_pred,
            gates,
            lost,
        ).1 == rd_value(
            gates.rdmult as int,
            rd.rate as int,
            corrected_stats(rd, is_inter_pred, gates, lost).0,
        ),
{
    assert(0 * gates.rdmult as int == 0) by (nonlinear_arith);
}

/// Lost detail costs 128 for each unit, where it counts at all: on blocks of
/// sharp frames that are no key, golden or alternate references. The tunings
/// that favour prediction within the frame never touch a block predicted so.
pub proof fn law_lost_detail_is_paid_for(
    rd_cost: int,
    is_inter_pred: bool,
    gates: AdjustGates,
    lost: int,
)
    requires
        lost >= 0,
    ensures
        gates.sharpness == 3 && !gates.frame_is_kf_gf_arf && !is_inter_pred ==> corrected_cost(
            rd_cost,
            is_inter_pred,
            gates,
            lost,
        ) == rd_cost + 128 * lost,
        (gates.sharpness != 3 || gates.frame_is_kf_gf_arf) && !is_inter_pred ==> corrected_cost(
            rd_cost,
            is_inter_pred,
            gates,
            lost,
        ) == rd_cost,
        is_inter_pred && (gates.tuning == AOM_TUNE_IQ || gates.tuning == AOM_TUNE_SSIMULACRA2)
            ==> corrected_cost(rd_cost, is_inter_pred, gates, lost) == (9 * rd_cost) / 8,
{
    assert(0 * gates.rdmult as int == 0) by (nonlinear_arith);
}

/// The block sizes that may blend two predictions are those with sides from 8
/// to 32, one at most twice the other; two references take sides of 8 at least.
pub proof fn law_block_sizes_of_two_predictions(bsize: int)
    requires
        0 <= bsize < 22,
    ensures
        3 <= bsize <= 9 <==> {
            &&& 8 <= BLK_W_B[bsize] <= 32
            &&& 8 <= BLK_H_B[bsize] <= 32
            &&& BLK_W_B[bsize] <= 2 * BLK_H_B[bsize]
            &&& BLK_H_B[bsize] <= 2 * BLK_W_B[bsize]
        },
        3 <= bsize <= 9 ==> takes_two_references(bsize),
        !takes_two_references(bsize) <==> BLK_W_B[bsize] == 4 || BLK_H_B[bsize] == 4,
{
}

/// A mode of a single reference can always be coded, and one of two references
/// in no frame that allows single ones only.
pub proof fn law_single_reference_can_be_coded(
    bsize: int,
    mode: PredMode,
    ref_frames: [i32; 2],
    flags: i32,
    intra_only: bool,
    reference_mode: i32,
    seg: bool,
)
    ensures
        ref_frames[1] < 0 ==> !cannot_be_coded(
            bsize,
            mode,
            ref_frames,
            flags,
            intra_only,
            reference_mode,
            seg,
        ),
        ref_frames[1] > 0 && (intra_only || seg || reference_mode == SINGLE_REFERENCE)
            ==> cannot_be_coded(
            bsize,
            mode,
            ref_frames,
            flags,
            intra_only,
            reference_mode,
            seg,
        ),
        ref_frames[1] > 0 && flags & ref_bit(ref_frames[1] as int) == 0 ==> cannot_be_coded(
            bsize,
            mode,
            ref_frames,
            flags,
            intra_only,
            reference_mode,
            seg,
        ),
{
}

/// A strong candidate and the first one are never dropped as weak, and one
/// dropped at some level is dropped at every higher one.
pub proof fn law_strong_candidate_stays(
    low: i32,
    high: i32,
    dist: RefFrameDistanceInfo,
    mode: PredMode,
    ref_frames: [i32; 2],
    ref_mv_idx: int,
    prune_by_qindex: bool,
    row: RefMvRow,
)
    requires
        0 <= low <= high,
        0 <= ref_mv_idx < 3,
    ensures
        ({
            let k = if mode.near() { ref_mv_idx + 1 } else { ref_mv_idx };
            row.weight[k] >= REF_CAT_LEVEL || ref_mv_idx == 0 || low == 0
        }) ==> !dropped_as_weak(low, dist, mode, ref_frames, ref_mv_idx, prune_by_qindex, row),
        dropped_as_weak(low, dist, mode, ref_frames, ref_mv_idx, prune_by_qindex, row)
            ==> dropped_as_weak(high, dist, mode, ref_frames, ref_mv_idx, prune_by_qindex, row),
        dropped_as_weak(low, dist, mode, ref_frames, ref_mv_idx, false, row) ==> {
            ||| ref_frames[0] == 2 || ref_frames[0] == 3
            ||| ref_frames[1] == 2 || ref_frames[1] == 3
        },
{
}

/// The least rate of a candidate is the sum of what naming the reference, the
/// kind of prediction and the candidate costs, where that can be held.
pub proof fn law_rate_floor_is_the_sum(reference: i32, kind: i32, candidate: i32)
    requires
        i32::MIN <= reference + kind + candidate <= i32::MAX,
    ensures
        rate_floor(reference, kind, candidate) == reference + kind + candidate,
{
}

} // verus!
