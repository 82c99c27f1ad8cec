//! Variance-based partitioning: the key-frame partition tree fixed from
//! source-variance thresholds, and the inter-frame decisions that go with it.

use vstd::prelude::*;

use crate::arith::{
    lemma_pow2i_is_pow2, lemma_pow2i_mono, lemma_pow2i_pos, lemma_pow2i_values, max_int, min_int,
    pow2i,
};
use crate::block::{
    is_square_node,
    BLOCK_128X128,
    BLOCK_16X16,
    BLOCK_32X32,
    BLOCK_64X64,
    BLOCK_8X8,
    MI_SIZE_HIGH_B,
    MI_SIZE_WIDE_B,
};
pub use crate::var_part_inter::{
    all_blks_inside,
    calc_chroma_thresh_for_zeromv_skip,
    compute_minmax_8x8,
    compute_minmax_8x8_highbd,
    fill_variance_8x8avg,
    fill_variance_8x8avg_highbd,
    get_force_skip_low_temp_var,
    get_force_skip_low_temp_var_small_sb,
    is_set_force_zeromv_skip_based_on_src_sad,
    mv_distance,
    scale_part_thresh_content,
    set_force_zeromv_skip_for_sb,
    set_low_temp_var_flag,
    set_low_temp_var_flag_128x128,
    set_low_temp_var_flag_64x64,
    set_ref_frame_for_partition,
    MiGrid,
    RefFrameForPartition,
    SourceSad,
    VarianceTree,
    ZeromvSkip,
};

verus! {

/// Which shapes remain open at a node of the partition tree.
#[derive(Clone, Copy, PartialEq, Eq, Debug, Structural)]
pub enum PartEval {
    /// Every shape is evaluated.
    All,
    /// The block must split.
    OnlySplit,
    /// The block must not split.
    OnlyNone,
}

/// Accumulated error of a region: the sum of squares and the sum over its
/// `2^log2_count` samples, and the variance once it has been derived.
#[derive(Clone, Copy, Debug)]
pub struct VPartVar {
    pub sum_square_error: u32,
    pub sum_error: i32,
    pub log2_count: i32,
    pub variance: i32,
}

/// The regions a block can be divided into: itself, its two rows and its two
/// columns.
#[derive(Clone, Copy, Debug)]
pub struct VPVariance {
    pub none: VPartVar,
    pub horz: [VPartVar; 2],
    pub vert: [VPartVar; 2],
}

/// The value of a 32-bit pattern read as a two's-complement number.
pub open spec fn to_signed32(v: int) -> int {
    if v >= 0x8000_0000 {
        v - 0x1_0000_0000
    } else {
        v
    }
}

/// The variance of a region, scaled by 256: `256 * (sse - sum^2 / n) / n` with
/// `n = 2^log2`, in 32-bit wrapping arithmetic.
pub open spec fn variance_value(sse: int, sum: int, log2: int) -> int {
    let n = pow2i(log2);
    let diff = (sse - sum * sum / n) % 0x1_0000_0000;
    to_signed32(((256 * diff) % 0x1_0000_0000) / n)
}

impl VPartVar {
    /// The variance that the accumulated sums stand for.
    pub open spec fn value(self) -> int {
        variance_value(
            self.sum_square_error as int,
            self.sum_error as int,
            self.log2_count as int,
        )
    }
}

/// Write the sums of a region; the derived variance is left as it was.
pub fn fill_variance(s2: u32, s: i32, c: i32, v: &mut VPartVar)
    ensures
        *final(v) == (VPartVar {
            sum_square_error: s2,
            sum_error: s,
            log2_count: c,
            variance: old(v).variance,
        }),
{
    v.sum_square_error = s2;
    v.sum_error = s;
    v.log2_count = c;
}

/// Derive the variance of a region from its sums.
pub fn get_variance(v: &mut VPartVar)
    requires
        0 <= old(v).log2_count < 32,
    ensures
        final(v).variance == old(v).value(),
        final(v).sum_square_error == old(v).sum_square_error,
        final(v).sum_error == old(v).sum_error,
        final(v).log2_count == old(v).log2_count,
{
    v.variance = variance_of(v);
}

/// The variance of a region, derived from its sums.
fn variance_of(v: &VPartVar) -> (r: i32)
    requires
        0 <= v.log2_count < 32,
    ensures
        r == v.value(),
{
    let log2: u32 = v.log2_count as u32;
    let magnitude: u64 = if v.sum_error < 0 {
        (-(v.sum_error as i64)) as u64
    } else {
        v.sum_error as u64
    };
    let ghost s = v.sum_error as int;
    let ghost n = pow2i(v.log2_count as int);
    assert(magnitude * magnitude == s * s) by (nonlinear_arith)
        requires
            magnitude == s || magnitude == -s,
    ;
    assert(magnitude * magnitude <= 0x8000_0000 * 0x8000_0000) by (nonlinear_arith)
        requires
            0 <= magnitude <= 0x8000_0000,
    ;
    let square: u64 = magnitude * magnitude;
    proof {
        vstd::bits::lemma_u64_shr_is_div(square, log2 as u64);
        lemma_pow2i_is_pow2(log2 as nat);
        lemma_pow2i_pos(log2 as int);
    }
    let mean_square: u64 = square >> (log2 as u64);
    assert(mean_square == s * s / n);
    let diff: u64 = (0x1_0000_0000u64 + v.sum_square_error as u64 - mean_square
        % 0x1_0000_0000u64) % 0x1_0000_0000u64;
    assert(diff == (v.sum_square_error as int - s * s / n) % 0x1_0000_0000) by {
        let a = v.sum_square_error as int;
        let b = mean_square as int;
        let m = 0x1_0000_0000int;
        vstd::arithmetic::div_mod::lemma_fundamental_div_mod(b, m);
        assert(m * (-(b / m) - 1) + (m + a - b % m) == a - b) by (nonlinear_arith)
            requires
                b == m * (b / m) + b % m,
        ;
        vstd::arithmetic::div_mod::lemma_mod_multiples_vanish(-(b / m) - 1, m + a - b % m, m);
    }
    let scaled: u64 = (256u64 * diff) % 0x1_0000_0000u64;
    proof {
        vstd::bits::lemma_u64_shr_is_div(scaled, log2 as u64);
        vstd::arithmetic::div_mod::lemma_div_is_ordered_by_denominator(scaled as int, 1, n);
    }
    let wrapped: u64 = scaled >> (log2 as u64);
    assert(wrapped == scaled as int / n);
    assert(wrapped <= scaled);
    if wrapped >= 0x8000_0000 {
        (wrapped as i64 - 0x1_0000_0000i64) as i32
    } else {
        wrapped as i32
    }
}

/// Add up two regions of one size into the region they make together.
fn sum_2_variances(a: &VPartVar, b: &VPartVar) -> (r: VPartVar)
    requires
        a.log2_count == b.log2_count,
        a.log2_count < i32::MAX,
        a.sum_square_error + b.sum_square_error <= u32::MAX,
        i32::MIN <= a.sum_error + b.sum_error <= i32::MAX,
    ensures
        r.sum_square_error == a.sum_square_error + b.sum_square_error,
        r.sum_error == a.sum_error + b.sum_error,
        r.log2_count == a.log2_count + 1,
{
    VPartVar {
        sum_square_error: a.sum_square_error + b.sum_square_error,
        sum_error: a.sum_error + b.sum_error,
        log2_count: a.log2_count + 1,
        variance: 0,
    }
}

/// `r` holds the sums of `a` and `b` together.
pub open spec fn is_sum_of(r: VPartVar, a: VPartVar, b: VPartVar) -> bool {
    &&& r.sum_square_error == a.sum_square_error + b.sum_square_error
    &&& r.sum_error == a.sum_error + b.sum_error
    &&& r.log2_count == a.log2_count + 1
}

/// The rows, the columns and the whole of a block, from its four quadrants in
/// raster order.
fn fill_variance_node(children: &[VPartVar; 4]) -> (r: VPVariance)
    requires
        forall|i: int|
            0 <= i < 4 ==> (#[trigger] children[i]).log2_count == children[0].log2_count,
        children[0].log2_count < i32::MAX - 1,
        children[0].sum_square_error + children[1].sum_square_error
            + children[2].sum_square_error + children[3].sum_square_error <= u32::MAX,
        forall|i: int|
            0 <= i < 4 ==> -0x1000_0000 <= (#[trigger] children[i]).sum_error <= 0x1000_0000,
    ensures
        is_sum_of(r.horz[0], children[0], children[1]),
        is_sum_of(r.horz[1], children[2], children[3]),
        is_sum_of(r.vert[0], children[0], children[2]),
        is_sum_of(r.vert[1], children[1], children[3]),
        is_sum_of(r.none, r.vert[0], r.vert[1]),
{
    assert(children[1].log2_count == children[0].log2_count);
    let horz0 = sum_2_variances(&children[0], &children[1]);
    let horz1 = sum_2_variances(&children[2], &children[3]);
    let vert0 = sum_2_variances(&children[0], &children[2]);
    let vert1 = sum_2_variances(&children[1], &children[3]);
    let none = sum_2_variances(&vert0, &vert1);
    VPVariance { none, horz: [horz0, horz1], vert: [vert0, vert1] }
}

/// The sum of the four samples from index `i` on.
pub open spec fn row4(src: Seq<u16>, i: int) -> int {
    src[i] + src[i + 1] + src[i + 2] + src[i + 3]
}

/// The rounded mean of the 4x4 samples whose first one is at `off`.
pub open spec fn avg4x4(src: Seq<u16>, off: int, stride: int) -> int {
    (row4(src, off) + row4(src, off + stride) + row4(src, off + 2 * stride) + row4(
        src,
        off + 3 * stride,
    ) + 8) / 16
}

fn sum_row4(src: &[u16], i: usize) -> (r: u32)
    requires
        i + 4 <= src.len(),
    ensures
        r == row4(src@, i as int),
        r <= 4 * 65535,
{
    src[i] as u32 + src[i + 1] as u32 + src[i + 2] as u32 + src[i + 3] as u32
}

/// The rounded mean of a 4x4 group of samples.
pub fn avg_4x4(src: &[u16], off: usize, stride: usize) -> (r: i32)
    requires
        off + 3 * stride + 4 <= src.len(),
    ensures
        r == avg4x4(src@, off as int, stride as int),
        0 <= r <= 65535,
{
    let sum: u32 = sum_row4(src, off) + sum_row4(src, off + stride) + sum_row4(
        src,
        off + 2 * stride,
    ) + sum_row4(src, off + 3 * stride);
    let sum8: u32 = sum + 8;
    assert(sum8 >> 4 == sum8 / 16) by (bit_vector);
    (sum8 >> 4) as i32
}

/// The luma samples of a superblock: its top-left sample is `src[off]`, and
/// `wide` by `high` samples of it lie inside the frame.
#[verifier::ext_equal]
pub struct SbSource {
    pub src: Seq<u16>,
    pub off: int,
    pub stride: int,
    pub wide: int,
    pub high: int,
}

impl SbSource {
    /// The samples inside the frame are there and hold at most twelve bits.
    pub open spec fn readable(self) -> bool {
        &&& self.off >= 0
        &&& self.stride >= 0
        &&& self.wide % 4 == 0
        &&& self.high % 4 == 0
        &&& (self.wide > 0 && self.high > 0 ==> self.off + (self.high - 1) * self.stride
            + self.wide <= self.src.len())
        &&& forall|i: int| 0 <= i < self.src.len() ==> (#[trigger] self.src[i]) < 4096
    }

    /// What the 4x4 group at `(x, y)` adds to a region: its mean less the
    /// mid-level 128, and nothing when it lies outside the frame.
    pub open spec fn leaf(self, x: int, y: int) -> int {
        if x < self.wide && y < self.high {
            avg4x4(self.src, self.off + y * self.stride + x, self.stride) - 128
        } else {
            0
        }
    }

    /// Sum over the 4x4 groups of the square at `(x, y)` whose side is
    /// `4 * 2^level` samples.
    pub open spec fn sum(self, x: int, y: int, level: int) -> int
        decreases level,
    {
        if level <= 0 {
            self.leaf(x, y)
        } else {
            let l = level - 1;
            let h = 4 * pow2i(level - 1);
            self.sum(x, y, l) + self.sum(x + h, y, l) + self.sum(x, y + h, l) + self.sum(
                x + h,
                y + h,
                l,
            )
        }
    }

    /// Sum of squares over the same 4x4 groups.
    pub open spec fn sse(self, x: int, y: int, level: int) -> int
        decreases level,
    {
        if level <= 0 {
            self.leaf(x, y) * self.leaf(x, y)
        } else {
            let l = level - 1;
            let h = 4 * pow2i(level - 1);
            self.sse(x, y, l) + self.sse(x + h, y, l) + self.sse(x, y + h, l) + self.sse(
                x + h,
                y + h,
                l,
            )
        }
    }

    /// The variance of the square at `(x, y)` of side `4 * 2^level`.
    pub open spec fn variance(self, x: int, y: int, level: int) -> int {
        variance_value(self.sse(x, y, level), self.sum(x, y, level), 2 * level)
    }

    /// The variance of one column (`second` selects the right one) of the
    /// square at `(x, y)` of side `4 * 2^level`.
    pub open spec fn vert_variance(self, x: int, y: int, level: int, second: bool) -> int {
        let l = level - 1;
        let h = 4 * pow2i(level - 1);
        let xx = if second { x + h } else { x };
        variance_value(
            self.sse(xx, y, l) + self.sse(xx, y + h, l),
            self.sum(xx, y, l) + self.sum(xx, y + h, l),
            2 * level - 1,
        )
    }

    /// The variance of one row (`second` selects the lower one) of the square
    /// at `(x, y)` of side `4 * 2^level`.
    pub open spec fn horz_variance(self, x: int, y: int, level: int, second: bool) -> int {
        let l = level - 1;
        let h = 4 * pow2i(level - 1);
        let yy = if second { y + h } else { y };
        variance_value(
            self.sse(x, yy, l) + self.sse(x + h, yy, l),
            self.sum(x, yy, l) + self.sum(x + h, yy, l),
            2 * level - 1,
        )
    }

    proof fn lemma_bounds(self, x: int, y: int, level: int)
        requires
            self.readable(),
            level >= 0,
            x >= 0,
            y >= 0,
            x % 4 == 0,
            y % 4 == 0,
        ensures
            -pow2i(2 * level) * 3967 <= self.sum(x, y, level) <= pow2i(2 * level) * 3967,
            0 <= self.sse(x, y, level) <= pow2i(2 * level) * 15737089,
        decreases level,
    {
        if level <= 0 {
            if x < self.wide && y < self.high {
                let o = self.off + y * self.stride + x;
                assert(x + 4 <= self.wide && y + 4 <= self.high);
                assert((y + 3) * self.stride <= (self.high - 1) * self.stride)
                    by (nonlinear_arith)
                    requires
                        y + 3 <= self.high - 1,
                        self.stride >= 0,
                ;
                assert((y + 3) * self.stride == y * self.stride + 3 * self.stride)
                    by (nonlinear_arith);
                assert(y * self.stride >= 0) by (nonlinear_arith)
                    requires
                        y >= 0,
                        self.stride >= 0,
                ;
                assert(self.src[o] < 4096 && self.src[o + 1] < 4096 && self.src[o + 2] < 4096
                    && self.src[o + 3] < 4096);
                let o1 = o + self.stride;
                assert(self.src[o1] < 4096 && self.src[o1 + 1] < 4096 && self.src[o1 + 2] < 4096
                    && self.src[o1 + 3] < 4096);
                let o2 = o + 2 * self.stride;
                assert(self.src[o2] < 4096 && self.src[o2 + 1] < 4096 && self.src[o2 + 2] < 4096
                    && self.src[o2 + 3] < 4096);
                let o3 = o + 3 * self.stride;
                assert(self.src[o3] < 4096 && self.src[o3 + 1] < 4096 && self.src[o3 + 2] < 4096
                    && self.src[o3 + 3] < 4096);
            }
            let v = self.leaf(x, y);
            assert(-128 <= v <= 3967);
            assert(0 <= v * v <= 15737089) by (nonlinear_arith)
                requires
                    -128 <= v <= 3967,
            ;
        } else {
            let l = level - 1;
            let h = 4 * pow2i(level - 1);
            lemma_pow2i_pos(level - 1);
            self.lemma_bounds(x, y, l);
            self.lemma_bounds(x + h, y, l);
            self.lemma_bounds(x, y + h, l);
            self.lemma_bounds(x + h, y + h, l);
            assert(pow2i(2 * level) == 2 * pow2i(2 * level - 1));
            assert(pow2i(2 * level - 1) == 2 * pow2i(2 * l));
        }
    }
}

/// The speed-feature inputs of the key-frame thresholds.
#[derive(Clone, Copy, Debug, PartialEq, Eq, Structural)]
pub struct VbpSf {
    /// Large blocks are favoured on intra frames.
    pub force_large_partition_blocks_intra: bool,
    /// Left shift of the split threshold; read only when
    /// `force_large_partition_blocks_intra` is set.
    pub var_part_split_threshold_shift: i32,
    /// The encoder runs in all-intra mode.
    pub allintra: bool,
}

impl VbpSf {
    /// The smallest `var_part_split_threshold_shift` that is meaningful.
    pub open spec fn shift_floor(self) -> int {
        if self.allintra {
            7
        } else {
            8
        }
    }

    /// When large blocks are favoured, the shift is at or above its floor, and
    /// the shifted thresholds fit their type.
    pub open spec fn valid(self) -> bool {
        self.force_large_partition_blocks_intra ==> self.shift_floor()
            <= self.var_part_split_threshold_shift <= self.shift_floor() + 20
    }

    /// The factor by which every threshold is scaled.
    pub open spec fn scale(self) -> int {
        if self.force_large_partition_blocks_intra {
            pow2i(self.var_part_split_threshold_shift - self.shift_floor())
        } else {
            1
        }
    }
}

impl Default for VbpSf {
    fn default() -> (r: Self)
        ensures
            !r.force_large_partition_blocks_intra,
            r.var_part_split_threshold_shift == 7,
            r.allintra,
            r.valid(),
    {
        VbpSf {
            force_large_partition_blocks_intra: false,
            var_part_split_threshold_shift: 7,
            allintra: true,
        }
    }
}

/// Frame area from which the high-resolution thresholds apply.
pub const RESOLUTION_720P: i64 = 921600;

/// The key-frame variance thresholds for the 128x128, 64x64, 32x32, 16x16 and
/// 8x8 levels: multiples and fractions of 120 quantizer steps.
pub open spec fn vbp_thresholds(ac_quant: int, num_pixels: int, sf: VbpSf) -> Seq<int> {
    let base = 120 * ac_quant * sf.scale();
    let high_res = if sf.force_large_partition_blocks_intra {
        if sf.allintra {
            base / 2
        } else {
            base
        }
    } else {
        base / 4
    };
    if num_pixels < RESOLUTION_720P {
        seq![base, base, base / 3, base / 2, base * 4]
    } else {
        seq![base, base, high_res, high_res, base * 4]
    }
}

proof fn lemma_pow2i_small(n: int)
    requires
        0 <= n <= 20,
    ensures
        1 <= pow2i(n) <= 0x10_0000,
{
    lemma_pow2i_pos(n);
    lemma_pow2i_mono(n, 20);
    reveal_with_fuel(pow2i, 21);
}

/// `x` doubled `n` times.
fn double_times(x: i64, n: i32) -> (r: i64)
    requires
        0 <= n <= 20,
        0 <= x <= 0x40_0000_0000,
    ensures
        r == x * pow2i(n as int),
{
    let mut y: i64 = x;
    let mut i: i32 = 0;
    proof {
        assert(x * pow2i(0) == x);
    }
    while i < n
        invariant
            0 <= i <= n <= 20,
            0 <= x <= 0x40_0000_0000,
            y == x * pow2i(i as int),
        decreases n - i,
    {
        proof {
            lemma_pow2i_small(i as int);
            let p = pow2i(i as int);
            assert(x * p <= 0x40_0000_0000 * 0x10_0000) by (nonlinear_arith)
                requires
                    0 <= x <= 0x40_0000_0000,
                    1 <= p <= 0x10_0000,
            ;
            assert(0 <= x * p) by (nonlinear_arith)
                requires
                    0 <= x,
                    1 <= p,
            ;
            assert(2 * (x * p) == x * (2 * p)) by (nonlinear_arith);
        }
        y = 2 * y;
        i = i + 1;
    }
    y
}

/// The five key-frame thresholds, from the AC quantizer step of the
/// superblock and the number of samples in the cropped frame.
pub fn set_vbp_thresholds_key(ac_quant: i32, num_pixels: i64, sf: VbpSf) -> (r: [i64; 5])
    requires
        ac_quant >= 0,
        sf.valid(),
    ensures
        r@.map_values(|t: i64| t as int) =~= vbp_thresholds(ac_quant as int, num_pixels as int, sf),
        forall|i: int| 0 <= i < 4 ==> 0 <= #[trigger] r[i] <= 0x400_0000_0000_0000,
{
    let unscaled: i64 = 120 * ac_quant as i64;
    let base: i64 = if sf.force_large_partition_blocks_intra {
        let steps: i32 = sf.var_part_split_threshold_shift - if sf.allintra { 7 } else { 8 };
        double_times(unscaled, steps)
    } else {
        unscaled
    };
    proof {
        let s = sf.scale();
        if sf.force_large_partition_blocks_intra {
            lemma_pow2i_small(sf.var_part_split_threshold_shift - sf.shift_floor());
        }
        assert(0 <= unscaled * s <= 0x40_0000_0000 * 0x10_0000) by (nonlinear_arith)
            requires
                0 <= unscaled <= 0x40_0000_0000,
                1 <= s <= 0x10_0000,
        ;
    }
    assert(base >> 1 == base / 2 && base >> 2 == base / 4 && (0 <= base <= 0x400_0000_0000_0000
        ==> base << 2 == base * 4)) by (bit_vector);
    if num_pixels < RESOLUTION_720P {
        [base, base, base / 3, base >> 1, base << 2]
    } else if sf.force_large_partition_blocks_intra {
        if sf.allintra {
            [base, base, base >> 1, base >> 1, base << 2]
        } else {
            [base, base, base, base, base << 2]
        }
    } else {
        [base, base, base >> 2, base >> 2, base << 2]
    }
}

/// Frame and tile geometry, and the quantizer, of one superblock.
#[derive(Clone, Copy, Debug)]
pub struct VbpFrame {
    /// Frame height in mode-info units.
    pub mi_rows: i32,
    /// Frame width in mode-info units.
    pub mi_cols: i32,
    /// First mode-info row below the tile.
    pub tile_mi_row_end: i32,
    /// First mode-info column to the right of the tile.
    pub tile_mi_col_end: i32,
    /// Number of samples in the cropped frame.
    pub num_pixels: i64,
    /// Superblock size, `BLOCK_64X64` or `BLOCK_128X128`.
    pub sb_size: usize,
    /// AC quantizer step of the superblock.
    pub ac_quant: i32,
    /// Horizontal chroma subsampling, 0 or 1 (1 for monochrome).
    pub ss_x: usize,
    /// Vertical chroma subsampling, 0 or 1 (1 for monochrome).
    pub ss_y: usize,
    /// The resolved speed features.
    pub sf: VbpSf,
}

impl VbpFrame {
    /// The geometry is representable and the quantizer meaningful.
    pub open spec fn valid(self) -> bool {
        &&& 0 <= self.mi_rows
        &&& 0 <= self.mi_cols
        &&& 4 * self.mi_rows <= i32::MAX
        &&& 4 * self.mi_cols <= i32::MAX
        &&& self.mi_rows * self.mi_cols <= i32::MAX
        &&& (self.sb_size == BLOCK_64X64 || self.sb_size == BLOCK_128X128)
        &&& self.ac_quant >= 0
        &&& self.ss_x <= 1
        &&& self.ss_y <= 1
        &&& self.sf.valid()
    }
}

/// The stamp grid after `bsize` has been written at `(mi_row, mi_col)`; a
/// position outside the frame is not written.
pub open spec fn stamp(s: Seq<u8>, f: VbpFrame, mi_row: int, mi_col: int, bsize: int) -> Seq<u8> {
    if mi_row < f.mi_rows && mi_col < f.mi_cols {
        s.update(mi_row * f.mi_cols + mi_col, bsize as u8)
    } else {
        s
    }
}

proof fn lemma_cell(rows: int, cols: int, r: int, c: int)
    requires
        0 <= r < rows,
        0 <= c < cols,
    ensures
        0 <= r * cols + c < rows * cols,
{
    assert(r * cols + c < rows * cols) by (nonlinear_arith)
        requires
            0 <= r < rows,
            0 <= c < cols,
    ;
    assert(0 <= r * cols) by (nonlinear_arith)
        requires
            0 <= r,
            0 <= cols,
    ;
}

/// Stamp `bsize` at a block's top-left cell when it lies inside the frame.
fn set_block_size(stamps: &mut [u8], f: &VbpFrame, mi_row: i32, mi_col: i32, bsize: usize)
    requires
        f.valid(),
        old(stamps).len() == f.mi_rows * f.mi_cols,
        mi_row >= 0,
        mi_col >= 0,
        bsize < 22,
    ensures
        final(stamps)@ == stamp(old(stamps)@, *f, mi_row as int, mi_col as int, bsize as int),
        final(stamps).len() == old(stamps).len(),
{
    if f.mi_cols > mi_col && f.mi_rows > mi_row {
        proof {
            lemma_cell(f.mi_rows as int, f.mi_cols as int, mi_row as int, mi_col as int);
            assert(0 <= mi_row * f.mi_cols) by (nonlinear_arith)
                requires
                    mi_row >= 0,
                    f.mi_cols >= 0,
            ;
        }
        stamps[(mi_row * f.mi_cols + mi_col) as usize] = bsize as u8;
    }
}

/// How a node of the tree is settled.
#[derive(Clone, Copy, PartialEq, Eq, Debug, Structural)]
pub enum VtChoice {
    /// Not here: the four quadrants are visited.
    Descend,
    /// One block.
    Whole,
    /// Two blocks side by side.
    Columns,
    /// Two blocks one above the other.
    Rows,
}

/// Width (or height) in mode-info units that has to lie inside the tile for a
/// block of `units` to count as fitting. Along a frame edge with 64x64
/// superblocks half the block is enough.
pub open spec fn fit_whole(f: VbpFrame, units: int, at_frame_edge: bool) -> int {
    if f.sb_size == BLOCK_64X64 && at_frame_edge {
        units / 2 + 1
    } else {
        units
    }
}

/// The same for half of the block.
pub open spec fn fit_half(f: VbpFrame, units: int, at_frame_edge: bool) -> int {
    if f.sb_size == BLOCK_64X64 && at_frame_edge {
        units / 4 + 1
    } else {
        units / 2
    }
}

/// What is decided at a square node from the variances of its regions.
pub open spec fn vt_choice(
    f: VbpFrame,
    bsize: int,
    mi_row: int,
    mi_col: int,
    threshold: int,
    bsize_min: int,
    force: PartEval,
    none: int,
    vert: (int, int),
    horz: (int, int),
) -> VtChoice {
    let units = MI_SIZE_WIDE_B[bsize] as int;
    let right = f.tile_mi_col_end == f.mi_cols;
    let bottom = f.tile_mi_row_end == f.mi_rows;
    let cols_fit = mi_col + fit_whole(f, units, right) <= f.tile_mi_col_end;
    let rows_fit = mi_row + fit_whole(f, units, bottom) <= f.tile_mi_row_end;
    let half_cols_fit = mi_col + fit_half(f, units, right) <= f.tile_mi_col_end;
    let half_rows_fit = mi_row + fit_half(f, units, bottom) <= f.tile_mi_row_end;
    if cols_fit && rows_fit && force == PartEval::OnlyNone {
        VtChoice::Whole
    } else if force == PartEval::OnlySplit || bsize < bsize_min {
        VtChoice::Descend
    } else if bsize > bsize_min && (bsize > BLOCK_32X32 || none > 16 * threshold) {
        VtChoice::Descend
    } else if cols_fit && rows_fit && none < threshold {
        VtChoice::Whole
    } else if bsize == bsize_min {
        VtChoice::Descend
    } else if rows_fit && half_cols_fit && vert.0 < threshold && vert.1 < threshold && !(f.ss_x
        == 1 && f.ss_y == 0) {
        VtChoice::Columns
    } else if cols_fit && half_rows_fit && horz.0 < threshold && horz.1 < threshold && !(f.ss_x
        == 0 && f.ss_y == 1) {
        VtChoice::Rows
    } else {
        VtChoice::Descend
    }
}

/// The stamp grid after a node has been settled.
pub open spec fn vt_stamp(
    s: Seq<u8>,
    f: VbpFrame,
    choice: VtChoice,
    bsize: int,
    mi_row: int,
    mi_col: int,
) -> Seq<u8> {
    let half = MI_SIZE_WIDE_B[bsize] as int / 2;
    match choice {
        VtChoice::Descend => s,
        VtChoice::Whole => stamp(s, f, mi_row, mi_col, bsize),
        VtChoice::Columns => stamp(
            stamp(s, f, mi_row, mi_col, bsize - 2),
            f,
            mi_row,
            mi_col + half,
            bsize - 2,
        ),
        VtChoice::Rows => stamp(
            stamp(s, f, mi_row, mi_col, bsize - 1),
            f,
            mi_row + half,
            mi_col,
            bsize - 1,
        ),
    }
}

impl VPVariance {
    /// The choice at a node whose regions have these sums.
    pub open spec fn choice(
        self,
        f: VbpFrame,
        bsize: int,
        mi_row: int,
        mi_col: int,
        threshold: int,
        bsize_min: int,
        force: PartEval,
    ) -> VtChoice {
        vt_choice(
            f,
            bsize,
            mi_row,
            mi_col,
            threshold,
            bsize_min,
            force,
            self.none.value(),
            (self.vert[0].value(), self.vert[1].value()),
            (self.horz[0].value(), self.horz[1].value()),
        )
    }

    /// The sample counts of all regions are in range.
    pub open spec fn counts_valid(self) -> bool {
        &&& 0 <= self.none.log2_count < 32
        &&& 0 <= self.vert[0].log2_count < 32
        &&& 0 <= self.vert[1].log2_count < 32
        &&& 0 <= self.horz[0].log2_count < 32
        &&& 0 <= self.horz[1].log2_count < 32
    }
}

/// Settle one square node: stamp the block or its two halves when the
/// variances allow it. Returns whether the node has been settled.
fn set_vt_partitioning(
    stamps: &mut [u8],
    f: &VbpFrame,
    node: &VPVariance,
    bsize: usize,
    mi_row: i32,
    mi_col: i32,
    threshold: i64,
    bsize_min: usize,
    force_split: PartEval,
) -> (settled: bool)
    requires
        f.valid(),
        old(stamps).len() == f.mi_rows * f.mi_cols,
        is_square_node(bsize as int),
        0 <= mi_row <= 0x4000_0000,
        0 <= mi_col <= 0x4000_0000,
        0 <= threshold <= 0x400_0000_0000_0000,
        node.counts_valid(),
    ensures
        final(stamps).len() == old(stamps).len(),
        ({
            let choice = node.choice(
                *f,
                bsize as int,
                mi_row as int,
                mi_col as int,
                threshold as int,
                bsize_min as int,
                force_split,
            );
            &&& settled == (choice != VtChoice::Descend)
            &&& final(stamps)@ == vt_stamp(
                old(stamps)@,
                *f,
                choice,
                bsize as int,
                mi_row as int,
                mi_col as int,
            )
        }),
{
    let block_units: i32 = MI_SIZE_WIDE_B[bsize] as i32;
    assert(block_units >> 1 == block_units / 2 && block_units >> 2 == block_units / 4)
        by (bit_vector);
    let mut bs_width_check: i32 = block_units;
    let mut bs_height_check: i32 = block_units;
    let mut bs_width_vert_check: i32 = block_units >> 1;
    let mut bs_height_horiz_check: i32 = block_units >> 1;
    if f.sb_size == BLOCK_64X64 {
        if f.tile_mi_col_end == f.mi_cols {
            bs_width_check = (block_units >> 1) + 1;
            bs_width_vert_check = (block_units >> 2) + 1;
        }
        if f.tile_mi_row_end == f.mi_rows {
            bs_height_check = (block_units >> 1) + 1;
            bs_height_horiz_check = (block_units >> 2) + 1;
        }
    }
    let cols_fit = mi_col + bs_width_check <= f.tile_mi_col_end;
    let rows_fit = mi_row + bs_height_check <= f.tile_mi_row_end;
    if cols_fit && rows_fit && force_split == PartEval::OnlyNone {
        set_block_size(stamps, f, mi_row, mi_col, bsize);
        return true;
    }
    if force_split == PartEval::OnlySplit || bsize < bsize_min {
        return false;
    }
    let none_variance: i64 = variance_of(&node.none) as i64;
    if bsize > bsize_min && (bsize > BLOCK_32X32 || none_variance > 16 * threshold) {
        return false;
    }
    if cols_fit && rows_fit && none_variance < threshold {
        set_block_size(stamps, f, mi_row, mi_col, bsize);
        return true;
    }
    if bsize == bsize_min {
        return false;
    }
    if rows_fit && mi_col + bs_width_vert_check <= f.tile_mi_col_end {
        let left: i64 = variance_of(&node.vert[0]) as i64;
        let right: i64 = variance_of(&node.vert[1]) as i64;
        if left < threshold && right < threshold && !(f.ss_x == 1 && f.ss_y == 0) {
            set_block_size(stamps, f, mi_row, mi_col, bsize - 2);
            set_block_size(stamps, f, mi_row, mi_col + block_units / 2, bsize - 2);
            return true;
        }
    }
    if cols_fit && mi_row + bs_height_horiz_check <= f.tile_mi_row_end {
        let upper: i64 = variance_of(&node.horz[0]) as i64;
        let lower: i64 = variance_of(&node.horz[1]) as i64;
        if upper < threshold && lower < threshold && !(f.ss_x == 0 && f.ss_y == 1) {
            set_block_size(stamps, f, mi_row, mi_col, bsize - 1);
            set_block_size(stamps, f, mi_row + block_units / 2, mi_col, bsize - 1);
            return true;
        }
    }
    false
}

/// One superblock being partitioned.
struct SbJob<'a> {
    f: &'a VbpFrame,
    src: &'a [u16],
    off: usize,
    stride: usize,
    wide: i32,
    high: i32,
    mi_row: i32,
    mi_col: i32,
    threshold_32: i64,
    threshold_16: i64,
    prune_16x16: bool,
}

/// What the partition of a superblock depends on.
pub struct SbContext {
    pub f: VbpFrame,
    pub g: SbSource,
    pub mi_row: int,
    pub mi_col: int,
    pub threshold_32: int,
    pub threshold_16: int,
    pub prune_16x16: bool,
}

impl<'a> SbJob<'a> {
    spec fn source(self) -> SbSource {
        SbSource {
            src: self.src@,
            off: self.off as int,
            stride: self.stride as int,
            wide: self.wide as int,
            high: self.high as int,
        }
    }

    spec fn context(self) -> SbContext {
        SbContext {
            f: *self.f,
            g: self.source(),
            mi_row: self.mi_row as int,
            mi_col: self.mi_col as int,
            threshold_32: self.threshold_32 as int,
            threshold_16: self.threshold_16 as int,
            prune_16x16: self.prune_16x16,
        }
    }

    spec fn valid(self) -> bool {
        &&& self.f.valid()
        &&& self.source().readable()
        &&& 0 <= self.mi_row < self.f.mi_rows
        &&& 0 <= self.mi_col < self.f.mi_cols
        &&& 0 <= self.threshold_32 <= 0x400_0000_0000_0000
        &&& 0 <= self.threshold_16 <= 0x400_0000_0000_0000
    }
}

/// `v` holds the sums of the square at `(x, y)` of side `4 * 2^level`.
spec fn holds_sums(v: VPartVar, g: SbSource, x: int, y: int, level: int) -> bool {
    &&& v.sum_square_error == g.sse(x, y, level)
    &&& v.sum_error == g.sum(x, y, level)
    &&& v.log2_count == 2 * level
}

/// `pv` holds the sums of that square, its rows and its columns.
#[verifier::opaque]
spec fn holds_node(pv: VPVariance, g: SbSource, x: int, y: int, level: int) -> bool {
    &&& holds_sums(pv.none, g, x, y, level)
    &&& pv.none.value() == g.variance(x, y, level)
    &&& pv.vert[0].value() == g.vert_variance(x, y, level, false)
    &&& pv.vert[1].value() == g.vert_variance(x, y, level, true)
    &&& pv.horz[0].value() == g.horz_variance(x, y, level, false)
    &&& pv.horz[1].value() == g.horz_variance(x, y, level, true)
    &&& pv.counts_valid()
}

/// A multiple of four inside a superblock.
spec fn sb_pos(x: int, y: int) -> bool {
    &&& 0 <= x <= 128
    &&& 0 <= y <= 128
    &&& x % 4 == 0
    &&& y % 4 == 0
}

impl<'a> SbJob<'a> {
    /// The sums of one 4x4 group.
    fn leaf_4x4(&self, x: i32, y: i32) -> (r: VPartVar)
        requires
            self.valid(),
            sb_pos(x as int, y as int),
        ensures
            holds_sums(r, self.source(), x as int, y as int, 0),
    {
        let ghost g = self.source();
        proof {
            g.lemma_bounds(x as int, y as int, 0);
            lemma_pow2i_values();
        }
        if x < self.wide && y < self.high {
            proof {
                assert(x + 4 <= g.wide && y + 4 <= g.high);
                assert((y + 3) * g.stride <= (g.high - 1) * g.stride) by (nonlinear_arith)
                    requires
                        y + 3 <= g.high - 1,
                        g.stride >= 0,
                ;
                assert((y + 3) * g.stride == y * g.stride + 3 * g.stride) by (nonlinear_arith);
                assert(y * g.stride >= 0) by (nonlinear_arith)
                    requires
                        y >= 0,
                        g.stride >= 0,
                ;
            }
            assert(self.off + y * self.stride + x <= self.src.len());
            let mean: i32 = avg_4x4(
                self.src,
                self.off + y as usize * self.stride + x as usize,
                self.stride,
            );
            let sum: i32 = mean - 128;
            assert(0 <= sum * sum <= 15737089) by (nonlinear_arith)
                requires
                    -3967 <= sum <= 3967,
            ;
            VPartVar {
                sum_square_error: (sum * sum) as u32,
                sum_error: sum,
                log2_count: 0,
                variance: 0,
            }
        } else {
            VPartVar { sum_square_error: 0, sum_error: 0, log2_count: 0, variance: 0 }
        }
    }

    /// The regions of the square at `(x, y)`, from its four quadrants.
    fn node(
        &self,
        x: i32,
        y: i32,
        Ghost(level): Ghost<int>,
        quadrants: &[VPartVar; 4],
    ) -> (r: VPVariance)
        requires
            self.valid(),
            1 <= level <= 3,
            sb_pos(x as int, y as int),
            holds_sums(quadrants[0], self.source(), x as int, y as int, level - 1),
            holds_sums(
                quadrants[1],
                self.source(),
                x + 4 * pow2i(level - 1),
                y as int,
                level - 1,
            ),
            holds_sums(
                quadrants[2],
                self.source(),
                x as int,
                y + 4 * pow2i(level - 1),
                level - 1,
            ),
            holds_sums(
                quadrants[3],
                self.source(),
                x + 4 * pow2i(level - 1),
                y + 4 * pow2i(level - 1),
                level - 1,
            ),
        ensures
            holds_node(r, self.source(), x as int, y as int, level),
    {
        reveal(holds_node);
        proof {
            let g = self.source();
            let h = 4 * pow2i(level - 1);
            lemma_pow2i_values();
            g.lemma_bounds(x as int, y as int, level - 1);
            g.lemma_bounds(x + h, y as int, level - 1);
            g.lemma_bounds(x as int, y + h, level - 1);
            g.lemma_bounds(x + h, y + h, level - 1);
        }
        fill_variance_node(quadrants)
    }

    fn node_8x8(&self, x: i32, y: i32) -> (r: VPVariance)
        requires
            self.valid(),
            sb_pos(x as int, y as int),
            x <= 120,
            y <= 120,
        ensures
            holds_node(r, self.source(), x as int, y as int, 1),
    {
        proof {
            lemma_pow2i_values();
        }
        let quadrants = [
            self.leaf_4x4(x, y),
            self.leaf_4x4(x + 4, y),
            self.leaf_4x4(x, y + 4),
            self.leaf_4x4(x + 4, y + 4),
        ];
        self.node(x, y, Ghost(1), &quadrants)
    }

    /// The regions of a 16x16 block, and the sums of its 8x8 quadrants.
    fn node_16x16(&self, x: i32, y: i32) -> (r: (VPVariance, [VPartVar; 4]))
        requires
            self.valid(),
            sb_pos(x as int, y as int),
            x <= 112,
            y <= 112,
        ensures
            holds_node(r.0, self.source(), x as int, y as int, 2),
            holds_sums(r.1[0], self.source(), x as int, y as int, 1),
            holds_sums(r.1[1], self.source(), x + 8, y as int, 1),
            holds_sums(r.1[2], self.source(), x as int, y + 8, 1),
            holds_sums(r.1[3], self.source(), x + 8, y + 8, 1),
    {
        reveal(holds_node);
        proof {
            lemma_pow2i_values();
        }
        let quadrants = [
            self.node_8x8(x, y).none,
            self.node_8x8(x + 8, y).none,
            self.node_8x8(x, y + 8).none,
            self.node_8x8(x + 8, y + 8).none,
        ];
        (self.node(x, y, Ghost(2), &quadrants), quadrants)
    }
}

impl SbContext {
    /// Difference between the largest and the smallest variance of the 8x8
    /// quadrants of the 16x16 block at `(x, y)`.
    pub open spec fn spread_8x8(self, x: int, y: int) -> int {
        let a = self.g.variance(x, y, 1);
        let b = self.g.variance(x + 8, y, 1);
        let c = self.g.variance(x, y + 8, 1);
        let d = self.g.variance(x + 8, y + 8, 1);
        max_int(max_int(a, b), max_int(c, d)) - min_int(min_int(a, b), min_int(c, d))
    }

    /// A 16x16 block whose variance exceeds the 16x16 threshold may not be
    /// evaluated freely: it splits, unless pruning is on and its quadrants
    /// differ little, in which case it stays whole.
    pub open spec fn force_16(self, x: int, y: int) -> PartEval {
        if self.g.variance(x, y, 2) > self.threshold_16 {
            if self.prune_16x16 && self.spread_8x8(x, y) <= 4 * self.threshold_16 {
                PartEval::OnlyNone
            } else {
                PartEval::OnlySplit
            }
        } else {
            PartEval::All
        }
    }

    /// One of the quadrants of the 32x32 block at `(x, y)` is over the 16x16
    /// threshold.
    pub open spec fn over_16(self, x: int, y: int) -> bool {
        ||| self.g.variance(x, y, 2) > self.threshold_16
        ||| self.g.variance(x + 16, y, 2) > self.threshold_16
        ||| self.g.variance(x, y + 16, 2) > self.threshold_16
        ||| self.g.variance(x + 16, y + 16, 2) > self.threshold_16
    }

    /// A 32x32 block splits when one of its 16x16 quadrants is over the 16x16
    /// threshold or it is itself over the 32x32 threshold.
    pub open spec fn force_32(self, x: int, y: int) -> PartEval {
        if self.over_16(x, y) || self.g.variance(x, y, 3) > self.threshold_32 {
            PartEval::OnlySplit
        } else {
            PartEval::All
        }
    }

    /// The choice at the 16x16 (`level` 2) or 32x32 (`level` 3) block at
    /// `(x, y)`.
    pub open spec fn choice(self, x: int, y: int, level: int) -> VtChoice {
        vt_choice(
            self.f,
            if level == 2 {
                BLOCK_16X16 as int
            } else {
                BLOCK_32X32 as int
            },
            self.mi_row + y / 4,
            self.mi_col + x / 4,
            if level == 2 {
                self.threshold_16
            } else {
                self.threshold_32
            },
            if level == 2 {
                BLOCK_8X8 as int
            } else {
                BLOCK_16X16 as int
            },
            if level == 2 {
                self.force_16(x, y)
            } else {
                self.force_32(x, y)
            },
            self.g.variance(x, y, level),
            (self.g.vert_variance(x, y, level, false), self.g.vert_variance(x, y, level, true)),
            (self.g.horz_variance(x, y, level, false), self.g.horz_variance(x, y, level, true)),
        )
    }

    /// The grid after an 8x8 leaf at `(x, y)` has been stamped.
    pub open spec fn stamp_8(self, s: Seq<u8>, x: int, y: int) -> Seq<u8> {
        stamp(s, self.f, self.mi_row + y / 4, self.mi_col + x / 4, BLOCK_8X8 as int)
    }

    /// The grid after the 16x16 block at `(x, y)` has been partitioned.
    #[verifier::opaque]
    pub open spec fn stamp_16(self, s: Seq<u8>, x: int, y: int) -> Seq<u8> {
        let choice = self.choice(x, y, 2);
        if choice == VtChoice::Descend {
            self.stamp_8(
                self.stamp_8(self.stamp_8(self.stamp_8(s, x, y), x + 8, y), x, y + 8),
                x + 8,
                y + 8,
            )
        } else {
            vt_stamp(
                s,
                self.f,
                choice,
                BLOCK_16X16 as int,
                self.mi_row + y / 4,
                self.mi_col + x / 4,
            )
        }
    }

    /// The grid after the 32x32 block at `(x, y)` has been partitioned.
    #[verifier::opaque]
    pub open spec fn stamp_32(self, s: Seq<u8>, x: int, y: int) -> Seq<u8> {
        let choice = self.choice(x, y, 3);
        if choice == VtChoice::Descend {
            self.stamp_16(
                self.stamp_16(self.stamp_16(self.stamp_16(s, x, y), x + 16, y), x, y + 16),
                x + 16,
                y + 16,
            )
        } else {
            vt_stamp(
                s,
                self.f,
                choice,
                BLOCK_32X32 as int,
                self.mi_row + y / 4,
                self.mi_col + x / 4,
            )
        }
    }

    /// The grid after the 64x64 block at `(x, y)` has been partitioned: on a
    /// key frame it always splits.
    pub open spec fn stamp_64(self, s: Seq<u8>, x: int, y: int) -> Seq<u8> {
        self.stamp_32(
            self.stamp_32(self.stamp_32(self.stamp_32(s, x, y), x + 32, y), x, y + 32),
            x + 32,
            y + 32,
        )
    }

    /// The grid after the whole superblock has been partitioned.
    pub open spec fn stamp_sb(self, s: Seq<u8>) -> Seq<u8> {
        if self.f.sb_size == BLOCK_64X64 {
            self.stamp_64(s, 0, 0)
        } else {
            self.stamp_64(
                self.stamp_64(self.stamp_64(self.stamp_64(s, 0, 0), 64, 0), 0, 64),
                64,
                64,
            )
        }
    }
}

proof fn lemma_variance_nonneg(sse: int, sum: int, log2: int)
    requires
        1 <= log2 <= 6,
    ensures
        0 <= variance_value(sse, sum, log2) < 0x8000_0000,
{
    lemma_pow2i_values();
    let n = pow2i(log2);
    assert(n == 2 || n == 4 || n == 8 || n == 16 || n == 32 || n == 64);
    let diff = (sse - sum * sum / n) % 0x1_0000_0000;
    let scaled = (256 * diff) % 0x1_0000_0000;
    assert(0 <= scaled / n < 0x8000_0000);
}

fn max_i32(a: i32, b: i32) -> (r: i32)
    ensures
        r == max_int(a as int, b as int),
{
    if a < b {
        b
    } else {
        a
    }
}

fn min_i32(a: i32, b: i32) -> (r: i32)
    ensures
        r == min_int(a as int, b as int),
{
    if a < b {
        a
    } else {
        b
    }
}

impl<'a> SbJob<'a> {
    /// Which shapes remain open at a 16x16 block with these sums.
    fn force_16(&self, x: i32, y: i32, node: &VPVariance, quadrants: &[VPartVar; 4]) -> (r:
        PartEval)
        requires
            self.valid(),
            holds_node(*node, self.source(), x as int, y as int, 2),
            holds_sums(quadrants[0], self.source(), x as int, y as int, 1),
            holds_sums(quadrants[1], self.source(), x + 8, y as int, 1),
            holds_sums(quadrants[2], self.source(), x as int, y + 8, 1),
            holds_sums(quadrants[3], self.source(), x + 8, y + 8, 1),
        ensures
            r == self.context().force_16(x as int, y as int),
    {
        reveal(holds_node);
        if variance_of(&node.none) as i64 > self.threshold_16 {
            if self.prune_16x16 {
                proof {
                    let g = self.source();
                    lemma_variance_nonneg(g.sse(x as int, y as int, 1), g.sum(x as int, y as int, 1), 2);
                    lemma_variance_nonneg(g.sse(x + 8, y as int, 1), g.sum(x + 8, y as int, 1), 2);
                    lemma_variance_nonneg(g.sse(x as int, y + 8, 1), g.sum(x as int, y + 8, 1), 2);
                    lemma_variance_nonneg(g.sse(x + 8, y + 8, 1), g.sum(x + 8, y + 8, 1), 2);
                }
                let a: i32 = variance_of(&quadrants[0]);
                let b: i32 = variance_of(&quadrants[1]);
                let c: i32 = variance_of(&quadrants[2]);
                let d: i32 = variance_of(&quadrants[3]);
                let largest: i32 = max_i32(max_i32(a, b), max_i32(c, d));
                let smallest: i32 = min_i32(min_i32(a, b), min_i32(c, d));
                if (largest - smallest) as i64 > 4 * self.threshold_16 {
                    PartEval::OnlySplit
                } else {
                    PartEval::OnlyNone
                }
            } else {
                PartEval::OnlySplit
            }
        } else {
            PartEval::All
        }
    }

    /// Stamp one 8x8 leaf.
    fn stamp_8(&self, stamps: &mut [u8], x: i32, y: i32)
        requires
            self.valid(),
            sb_pos(x as int, y as int),
            old(stamps).len() == self.f.mi_rows * self.f.mi_cols,
        ensures
            final(stamps).len() == old(stamps).len(),
            final(stamps)@ == self.context().stamp_8(old(stamps)@, x as int, y as int),
    {
        set_block_size(stamps, self.f, self.mi_row + y / 4, self.mi_col + x / 4, BLOCK_8X8);
    }

    /// Partition one 16x16 block.
    fn stamp_16(
        &self,
        stamps: &mut [u8],
        x: i32,
        y: i32,
        node: &VPVariance,
        force: PartEval,
    )
        requires
            self.valid(),
            sb_pos(x as int, y as int),
            x <= 112,
            y <= 112,
            holds_node(*node, self.source(), x as int, y as int, 2),
            force == self.context().force_16(x as int, y as int),
            old(stamps).len() == self.f.mi_rows * self.f.mi_cols,
        ensures
            final(stamps).len() == old(stamps).len(),
            final(stamps)@ == self.context().stamp_16(old(stamps)@, x as int, y as int),
    {
        reveal(holds_node);
        reveal(SbContext::stamp_16);
        let settled = set_vt_partitioning(
            stamps,
            self.f,
            node,
            BLOCK_16X16,
            self.mi_row + y / 4,
            self.mi_col + x / 4,
            self.threshold_16,
            BLOCK_8X8,
            force,
        );
        if !settled {
            self.stamp_8(stamps, x, y);
            self.stamp_8(stamps, x + 8, y);
            self.stamp_8(stamps, x, y + 8);
            self.stamp_8(stamps, x + 8, y + 8);
        }
    }

    /// The regions of a 16x16 block and the shapes that remain open for it.
    fn eval_16(&self, x: i32, y: i32) -> (r: (VPVariance, PartEval))
        requires
            self.valid(),
            sb_pos(x as int, y as int),
            x <= 112,
            y <= 112,
        ensures
            holds_node(r.0, self.source(), x as int, y as int, 2),
            r.1 == self.context().force_16(x as int, y as int),
            (r.1 != PartEval::All) == (self.source().variance(x as int, y as int, 2)
                > self.threshold_16),
    {
        let (node, quadrants) = self.node_16x16(x, y);
        let force = self.force_16(x, y, &node, &quadrants);
        (node, force)
    }

    /// The regions of a 32x32 block, from those of its quadrants.
    fn node_32x32(
        &self,
        x: i32,
        y: i32,
        n0: &VPVariance,
        n1: &VPVariance,
        n2: &VPVariance,
        n3: &VPVariance,
    ) -> (r: VPVariance)
        requires
            self.valid(),
            sb_pos(x as int, y as int),
            holds_node(*n0, self.source(), x as int, y as int, 2),
            holds_node(*n1, self.source(), x + 16, y as int, 2),
            holds_node(*n2, self.source(), x as int, y + 16, 2),
            holds_node(*n3, self.source(), x + 16, y + 16, 2),
        ensures
            holds_node(r, self.source(), x as int, y as int, 3),
    {
        reveal(holds_node);
        proof {
            lemma_pow2i_values();
        }
        let quadrants = [n0.none, n1.none, n2.none, n3.none];
        self.node(x, y, Ghost(3), &quadrants)
    }

    /// Settle one 32x32 block as a whole or in halves, if the variances allow
    /// it. `over_16` tells whether a quadrant is over the 16x16 threshold.
    fn settle_32(
        &self,
        stamps: &mut [u8],
        x: i32,
        y: i32,
        node: &VPVariance,
        over_16: bool,
    ) -> (settled: bool)
        requires
            self.valid(),
            sb_pos(x as int, y as int),
            holds_node(*node, self.source(), x as int, y as int, 3),
            over_16 == self.context().over_16(x as int, y as int),
            old(stamps).len() == self.f.mi_rows * self.f.mi_cols,
        ensures
            final(stamps).len() == old(stamps).len(),
            settled == (self.context().choice(x as int, y as int, 3) != VtChoice::Descend),
            settled ==> final(stamps)@ == self.context().stamp_32(
                old(stamps)@,
                x as int,
                y as int,
            ),
            !settled ==> final(stamps)@ == old(stamps)@,
    {
        reveal(holds_node);
        reveal(SbContext::stamp_32);
        let force = if over_16 || variance_of(&node.none) as i64 > self.threshold_32 {
            PartEval::OnlySplit
        } else {
            PartEval::All
        };
        set_vt_partitioning(
            stamps,
            self.f,
            node,
            BLOCK_32X32,
            self.mi_row + y / 4,
            self.mi_col + x / 4,
            self.threshold_32,
            BLOCK_16X16,
            force,
        )
    }

    /// Partition one 32x32 block.
    fn stamp_32(&self, stamps: &mut [u8], x: i32, y: i32)
        requires
            self.valid(),
            sb_pos(x as int, y as int),
            x <= 96,
            y <= 96,
            old(stamps).len() == self.f.mi_rows * self.f.mi_cols,
        ensures
            final(stamps).len() == old(stamps).len(),
            final(stamps)@ == self.context().stamp_32(old(stamps)@, x as int, y as int),
    {
        reveal(SbContext::stamp_32);
        let (n0, f0) = self.eval_16(x, y);
        let (n1, f1) = self.eval_16(x + 16, y);
        let (n2, f2) = self.eval_16(x, y + 16);
        let (n3, f3) = self.eval_16(x + 16, y + 16);
        let node = self.node_32x32(x, y, &n0, &n1, &n2, &n3);
        let over_16 = f0 != PartEval::All || f1 != PartEval::All || f2 != PartEval::All || f3
            != PartEval::All;
        let settled = self.settle_32(stamps, x, y, &node, over_16);
        if !settled {
            self.stamp_16(stamps, x, y, &n0, f0);
            self.stamp_16(stamps, x + 16, y, &n1, f1);
            self.stamp_16(stamps, x, y + 16, &n2, f2);
            self.stamp_16(stamps, x + 16, y + 16, &n3, f3);
        }
    }

    /// Partition one 64x64 block. On a key frame a block above 32x32 always
    /// splits.
    fn stamp_64(&self, stamps: &mut [u8], x: i32, y: i32)
        requires
            self.valid(),
            sb_pos(x as int, y as int),
            x <= 64,
            y <= 64,
            old(stamps).len() == self.f.mi_rows * self.f.mi_cols,
        ensures
            final(stamps).len() == old(stamps).len(),
            final(stamps)@ == self.context().stamp_64(old(stamps)@, x as int, y as int),
    {
        self.stamp_32(stamps, x, y);
        self.stamp_32(stamps, x + 32, y);
        self.stamp_32(stamps, x, y + 32);
        self.stamp_32(stamps, x + 32, y + 32);
    }
}

/// What the key-frame partition of the superblock at `(mi_row, mi_col)`
/// depends on.
pub open spec fn sb_context(
    f: VbpFrame,
    src_y: Seq<u16>,
    base_y: int,
    stride: int,
    mi_row: int,
    mi_col: int,
    prune_16x16: bool,
) -> SbContext {
    let side = if f.sb_size == BLOCK_64X64 {
        64int
    } else {
        128
    };
    let thresholds = vbp_thresholds(f.ac_quant as int, f.num_pixels as int, f.sf);
    SbContext {
        f,
        g: SbSource {
            src: src_y,
            off: base_y + mi_row * 4 * stride + mi_col * 4,
            stride,
            wide: min_int(side, (f.mi_cols - mi_col) * 4),
            high: min_int(side, (f.mi_rows - mi_row) * 4),
        },
        mi_row,
        mi_col,
        threshold_32: thresholds[2],
        threshold_16: thresholds[3],
        prune_16x16,
    }
}

/// Fix the partition of the superblock at `(mi_row, mi_col)` of a key frame as
/// block-size stamps at the top-left cells of its leaves. `stamps` is the
/// frame's row-major grid; the samples of the luma plane start at
/// `src_y[base_y]`. A superblock outside the frame leaves the grid alone.
pub fn choose_var_based_partitioning_key(
    stamps: &mut [u8],
    f: &VbpFrame,
    src_y: &[u16],
    base_y: usize,
    stride: usize,
    mi_row: i32,
    mi_col: i32,
    vbp_prune_16x16_split_using_min_max_sub_blk_var: bool,
)
    requires
        f.valid(),
        old(stamps).len() == f.mi_rows * f.mi_cols,
        mi_row >= 0,
        mi_col >= 0,
        mi_row < f.mi_rows && mi_col < f.mi_cols ==> sb_context(
            *f,
            src_y@,
            base_y as int,
            stride as int,
            mi_row as int,
            mi_col as int,
            vbp_prune_16x16_split_using_min_max_sub_blk_var,
        ).g.readable(),
    ensures
        final(stamps).len() == old(stamps).len(),
        final(stamps)@ == if mi_row < f.mi_rows && mi_col < f.mi_cols {
            sb_context(
                *f,
                src_y@,
                base_y as int,
                stride as int,
                mi_row as int,
                mi_col as int,
                vbp_prune_16x16_split_using_min_max_sub_blk_var,
            ).stamp_sb(old(stamps)@)
        } else {
            old(stamps)@
        },
{
    if mi_row >= f.mi_rows || mi_col >= f.mi_cols {
        return;
    }
    let thresholds = set_vbp_thresholds_key(f.ac_quant, f.num_pixels, f.sf);
    let ghost cx = sb_context(
        *f,
        src_y@,
        base_y as int,
        stride as int,
        mi_row as int,
        mi_col as int,
        vbp_prune_16x16_split_using_min_max_sub_blk_var,
    );
    let small = f.sb_size == BLOCK_64X64;
    let side: i32 = if small { 64 } else { 128 };
    proof {
        let t = vbp_thresholds(f.ac_quant as int, f.num_pixels as int, f.sf);
        assert(thresholds@.map_values(|t: i64| t as int)[2] == t[2]);
        assert(thresholds@.map_values(|t: i64| t as int)[3] == t[3]);
        assert((cx.g.high - 1) * stride >= 0) by (nonlinear_arith)
            requires
                cx.g.high >= 1,
                stride >= 0,
        ;
        assert(mi_row * 4 * stride >= 0) by (nonlinear_arith)
            requires
                mi_row >= 0,
                stride >= 0,
        ;
        assert(cx.g.off <= src_y.len());
    }
    let job = SbJob {
        f,
        src: src_y,
        off: base_y + mi_row as usize * 4 * stride + mi_col as usize * 4,
        stride,
        wide: min_i32(side, (f.mi_cols - mi_col) * 4),
        high: min_i32(side, (f.mi_rows - mi_row) * 4),
        mi_row,
        mi_col,
        threshold_32: thresholds[2],
        threshold_16: thresholds[3],
        prune_16x16: vbp_prune_16x16_split_using_min_max_sub_blk_var,
    };
    assert(job.context() == cx);
    job.stamp_64(stamps, 0, 0);
    if !small {
        job.stamp_64(stamps, 64, 0);
        job.stamp_64(stamps, 0, 64);
        job.stamp_64(stamps, 64, 64);
    }
}

/// Partition types, as the codes the bitstream uses.
pub const PARTITION_NONE: i32 = 0;

pub const PARTITION_HORZ: i32 = 1;

pub const PARTITION_VERT: i32 = 2;

pub const PARTITION_SPLIT: i32 = 3;

pub const PARTITION_HORZ_A: i32 = 4;

pub const PARTITION_HORZ_B: i32 = 5;

pub const PARTITION_VERT_A: i32 = 6;

pub const PARTITION_VERT_B: i32 = 7;

pub const PARTITION_HORZ_4: i32 = 8;

pub const PARTITION_VERT_4: i32 = 9;

/// Position outside the frame.
pub const PARTITION_INVALID: i32 = -1;

/// The partition of a block of size `bsize` whose top-left cell is stamped
/// `subsize`. When the middle of the block lies inside the frame (`inner`),
/// the stamps half-way to the right and half-way down tell the extended types
/// apart.
pub open spec fn partition_type(
    bsize: int,
    subsize: int,
    inner: bool,
    right: int,
    below: int,
) -> i32 {
    let b = MI_SIZE_WIDE_B[bsize] as int;
    let w = MI_SIZE_WIDE_B[subsize] as int;
    let h = MI_SIZE_HIGH_B[subsize] as int;
    if subsize == bsize {
        PARTITION_NONE
    } else if bsize > BLOCK_8X8 && inner {
        if w == b {
            if h * 4 == b {
                PARTITION_HORZ_4
            } else if below == subsize {
                PARTITION_HORZ
            } else {
                PARTITION_HORZ_B
            }
        } else if h == b {
            if w * 4 == b {
                PARTITION_VERT_4
            } else if right == subsize {
                PARTITION_VERT
            } else {
                PARTITION_VERT_B
            }
        } else if w * 2 != b || h * 2 != b {
            PARTITION_SPLIT
        } else if MI_SIZE_WIDE_B[below] == b {
            PARTITION_HORZ_A
        } else if MI_SIZE_HIGH_B[right] == b {
            PARTITION_VERT_A
        } else {
            PARTITION_SPLIT
        }
    } else if w < b {
        if h < b {
            PARTITION_SPLIT
        } else {
            PARTITION_VERT
        }
    } else if h < b {
        PARTITION_HORZ
    } else {
        PARTITION_INVALID
    }
}

/// The stamp at a cell of a grid with `mi_cols` columns.
pub open spec fn cell(s: Seq<u8>, mi_cols: int, r: int, c: int) -> int {
    s[r * mi_cols + c] as int
}

/// The partition that a stamp grid gives a block.
pub open spec fn partition_at(
    s: Seq<u8>,
    mi_rows: int,
    mi_cols: int,
    mi_row: int,
    mi_col: int,
    bsize: int,
) -> i32 {
    let half = MI_SIZE_WIDE_B[bsize] as int / 2;
    if mi_row >= mi_rows || mi_col >= mi_cols {
        PARTITION_INVALID
    } else {
        partition_type(
            bsize,
            cell(s, mi_cols, mi_row, mi_col),
            mi_row + half < mi_rows && mi_col + half < mi_cols,
            cell(s, mi_cols, mi_row, mi_col + half),
            cell(s, mi_cols, mi_row + half, mi_col),
        )
    }
}

/// Read the partition type of a block back from a stamp grid.
#[verifier::rlimit(50)]
pub fn get_partition_from_stamps(
    stamps: &[u8],
    mi_rows: i32,
    mi_cols: i32,
    mi_row: i32,
    mi_col: i32,
    bsize: usize,
) -> (r: i32)
    requires
        0 <= mi_row,
        0 <= mi_col,
        mi_rows >= 0 && mi_cols >= 0 ==> mi_rows * mi_cols <= i32::MAX && stamps.len() == mi_rows
            * mi_cols,
        forall|i: int| 0 <= i < stamps.len() ==> (#[trigger] stamps[i]) < 22,
        bsize < 22,
    ensures
        r == partition_at(
            stamps@,
            mi_rows as int,
            mi_cols as int,
            mi_row as int,
            mi_col as int,
            bsize as int,
        ),
{
    if mi_row >= mi_rows || mi_col >= mi_cols {
        return PARTITION_INVALID;
    }
    let ghost rows = mi_rows as int;
    let ghost cols = mi_cols as int;
    proof {
        lemma_cell(rows, cols, mi_row as int, mi_col as int);
        assert(0 <= mi_row * mi_cols) by (nonlinear_arith)
            requires
                0 <= mi_row,
                0 <= mi_cols,
        ;
    }
    let subsize: usize = stamps[(mi_row * mi_cols + mi_col) as usize] as usize;
    if subsize == bsize {
        return PARTITION_NONE;
    }
    let b: i32 = MI_SIZE_WIDE_B[bsize] as i32;
    let h: i32 = MI_SIZE_HIGH_B[subsize] as i32;
    let w: i32 = MI_SIZE_WIDE_B[subsize] as i32;
    if bsize > BLOCK_8X8 && b / 2 < mi_rows - mi_row && b / 2 < mi_cols - mi_col {
        proof {
            lemma_cell(rows, cols, mi_row as int, mi_col + b as int / 2);
            lemma_cell(rows, cols, mi_row + b as int / 2, mi_col as int);
            assert(0 <= (mi_row + b / 2) * mi_cols) by (nonlinear_arith)
                requires
                    0 <= mi_row + b / 2,
                    0 <= mi_cols,
            ;
        }
        let right: usize = stamps[(mi_row * mi_cols + (mi_col + b / 2)) as usize] as usize;
        let below: usize = stamps[((mi_row + b / 2) * mi_cols + mi_col) as usize] as usize;
        if w == b {
            if h * 4 == b {
                return PARTITION_HORZ_4;
            }
            if below == subsize {
                return PARTITION_HORZ;
            }
            return PARTITION_HORZ_B;
        } else if h == b {
            if w * 4 == b {
                return PARTITION_VERT_4;
            }
            if right == subsize {
                return PARTITION_VERT;
            }
            return PARTITION_VERT_B;
        }
        if w * 2 != b || h * 2 != b {
            return PARTITION_SPLIT;
        }
        if MI_SIZE_WIDE_B[below] as i32 == b {
            return PARTITION_HORZ_A;
        }
        if MI_SIZE_HIGH_B[right] as i32 == b {
            return PARTITION_VERT_A;
        }
        return PARTITION_SPLIT;
    }
    if w < b {
        if h < b {
            PARTITION_SPLIT
        } else {
            PARTITION_VERT
        }
    } else if h < b {
        PARTITION_HORZ
    } else {
        PARTITION_INVALID
    }
}

/// The partition code of a settled node.
pub open spec fn choice_code(choice: VtChoice) -> i32 {
    match choice {
        VtChoice::Whole => PARTITION_NONE,
        VtChoice::Rows => PARTITION_HORZ,
        VtChoice::Columns => PARTITION_VERT,
        VtChoice::Descend => PARTITION_SPLIT,
    }
}

proof fn lemma_stamp_cell(s: Seq<u8>, f: VbpFrame, r: int, c: int, b: int, r2: int, c2: int)
    requires
        f.valid(),
        s.len() == f.mi_rows * f.mi_cols,
        0 <= r,
        0 <= c,
        0 <= b < 22,
        0 <= r2 < f.mi_rows,
        0 <= c2 < f.mi_cols,
    ensures
        stamp(s, f, r, c, b).len() == s.len(),
        cell(stamp(s, f, r, c, b), f.mi_cols as int, r2, c2) == if r == r2 && c == c2 {
            b
        } else {
            cell(s, f.mi_cols as int, r2, c2)
        },
{
    let cols = f.mi_cols as int;
    lemma_cell(f.mi_rows as int, cols, r2, c2);
    if r < f.mi_rows && c < f.mi_cols {
        lemma_cell(f.mi_rows as int, cols, r, c);
        if r * cols + c == r2 * cols + c2 {
            assert(r == r2) by (nonlinear_arith)
                requires
                    r * cols + c == r2 * cols + c2,
                    0 <= c < cols,
                    0 <= c2 < cols,
            ;
        }
    }
}

/// The cell `(r, c)` lies in the square of `n` cells a side at `(r0, c0)`.
pub open spec fn in_square(r: int, c: int, r0: int, c0: int, n: int) -> bool {
    r0 <= r < r0 + n && c0 <= c < c0 + n
}

proof fn lemma_vt_stamp(
    s: Seq<u8>,
    f: VbpFrame,
    choice: VtChoice,
    bsize: int,
    r: int,
    c: int,
    r2: int,
    c2: int,
)
    requires
        f.valid(),
        s.len() == f.mi_rows * f.mi_cols,
        0 <= r,
        0 <= c,
        bsize == 6 || bsize == 9,
        0 <= r2 < f.mi_rows,
        0 <= c2 < f.mi_cols,
    ensures
        vt_stamp(s, f, choice, bsize, r, c).len() == s.len(),
        !in_square(r2, c2, r, c, MI_SIZE_WIDE_B[bsize] as int) ==> cell(
            vt_stamp(s, f, choice, bsize, r, c),
            f.mi_cols as int,
            r2,
            c2,
        ) == cell(s, f.mi_cols as int, r2, c2),
        ({
            let half = MI_SIZE_WIDE_B[bsize] as int / 2;
            let v = cell(vt_stamp(s, f, choice, bsize, r, c), f.mi_cols as int, r2, c2);
            match choice {
                VtChoice::Descend => true,
                VtChoice::Whole => r2 == r && c2 == c ==> v == bsize,
                VtChoice::Columns => r2 == r && (c2 == c || c2 == c + half) ==> v == bsize - 2,
                VtChoice::Rows => c2 == c && (r2 == r || r2 == r + half) ==> v == bsize - 1,
            }
        }),
{
    let half = MI_SIZE_WIDE_B[bsize] as int / 2;
    match choice {
        VtChoice::Descend => {},
        VtChoice::Whole => {
            lemma_stamp_cell(s, f, r, c, bsize, r2, c2);
        },
        VtChoice::Columns => {
            lemma_stamp_cell(s, f, r, c, bsize - 2, r2, c2);
            lemma_stamp_cell(stamp(s, f, r, c, bsize - 2), f, r, c + half, bsize - 2, r2, c2);
        },
        VtChoice::Rows => {
            lemma_stamp_cell(s, f, r, c, bsize - 1, r2, c2);
            lemma_stamp_cell(stamp(s, f, r, c, bsize - 1), f, r + half, c, bsize - 1, r2, c2);
        },
    }
}

impl SbContext {
    /// The superblock lies in the frame that the grid `s` belongs to.
    pub open spec fn placed(self, s: Seq<u8>) -> bool {
        &&& self.f.valid()
        &&& s.len() == self.f.mi_rows * self.f.mi_cols
        &&& 0 <= self.mi_row < self.f.mi_rows
        &&& 0 <= self.mi_col < self.f.mi_cols
    }

    /// The mode-info row of sample row `y` of the superblock.
    pub open spec fn row(self, y: int) -> int {
        self.mi_row + y / 4
    }

    /// The mode-info column of sample column `x` of the superblock.
    pub open spec fn col(self, x: int) -> int {
        self.mi_col + x / 4
    }

    /// The partition that the grid gives the block of size `bsize` at `(x, y)`.
    pub open spec fn read(self, s: Seq<u8>, x: int, y: int, bsize: int) -> i32 {
        partition_at(
            s,
            self.f.mi_rows as int,
            self.f.mi_cols as int,
            self.row(y),
            self.col(x),
            bsize,
        )
    }

    proof fn lemma_stamp_16(self, s: Seq<u8>, x: int, y: int, r2: int, c2: int)
        requires
            self.placed(s),
            x >= 0 && y >= 0 && x % 16 == 0 && y % 16 == 0,
            0 <= r2 < self.f.mi_rows,
            0 <= c2 < self.f.mi_cols,
        ensures
            self.stamp_16(s, x, y).len() == s.len(),
            !in_square(r2, c2, self.row(y), self.col(x), 4) ==> cell(
                self.stamp_16(s, x, y),
                self.f.mi_cols as int,
                r2,
                c2,
            ) == cell(s, self.f.mi_cols as int, r2, c2),
            ({
                let v = cell(self.stamp_16(s, x, y), self.f.mi_cols as int, r2, c2);
                let at = r2 == self.row(y) && c2 == self.col(x);
                let right = r2 == self.row(y) && c2 == self.col(x) + 2;
                let below = r2 == self.row(y) + 2 && c2 == self.col(x);
                &&& at ==> v == 3 || v == 4 || v == 5 || v == 6
                &&& match self.choice(x, y, 2) {
                    VtChoice::Descend => (at || right || below) ==> v == 3,
                    VtChoice::Whole => at ==> v == 6,
                    VtChoice::Columns => (at || right) ==> v == 4,
                    VtChoice::Rows => (at || below) ==> v == 5,
                }
            }),
    {
        reveal(SbContext::stamp_16);
        let choice = self.choice(x, y, 2);
        let f = self.f;
        if choice == VtChoice::Descend {
            let s1 = self.stamp_8(s, x, y);
            let s2 = self.stamp_8(s1, x + 8, y);
            let s3 = self.stamp_8(s2, x, y + 8);
            lemma_stamp_cell(s, f, self.row(y), self.col(x), 3, r2, c2);
            lemma_stamp_cell(s1, f, self.row(y), self.col(x + 8), 3, r2, c2);
            lemma_stamp_cell(s2, f, self.row(y + 8), self.col(x), 3, r2, c2);
            lemma_stamp_cell(s3, f, self.row(y + 8), self.col(x + 8), 3, r2, c2);
        } else {
            lemma_vt_stamp(s, f, choice, 6, self.row(y), self.col(x), r2, c2);
        }
    }

    #[verifier::spinoff_prover]
    #[verifier::rlimit(80)]
    proof fn lemma_stamp_32(self, s: Seq<u8>, x: int, y: int, r2: int, c2: int)
        requires
            self.placed(s),
            x >= 0 && y >= 0 && x % 32 == 0 && y % 32 == 0,
            0 <= r2 < self.f.mi_rows,
            0 <= c2 < self.f.mi_cols,
        ensures
            self.stamp_32(s, x, y).len() == s.len(),
            !in_square(r2, c2, self.row(y), self.col(x), 8) ==> cell(
                self.stamp_32(s, x, y),
                self.f.mi_cols as int,
                r2,
                c2,
            ) == cell(s, self.f.mi_cols as int, r2, c2),
            ({
                let v = cell(self.stamp_32(s, x, y), self.f.mi_cols as int, r2, c2);
                let at = r2 == self.row(y) && c2 == self.col(x);
                let right = r2 == self.row(y) && c2 == self.col(x) + 4;
                let below = r2 == self.row(y) + 4 && c2 == self.col(x);
                &&& at ==> 3 <= v <= 9
                &&& match self.choice(x, y, 3) {
                    VtChoice::Descend => (at || right || below) ==> 3 <= v <= 6,
                    VtChoice::Whole => at ==> v == 9,
                    VtChoice::Columns => (at || right) ==> v == 7,
                    VtChoice::Rows => (at || below) ==> v == 8,
                }
            }),
    {
        reveal(SbContext::stamp_32);
        let choice = self.choice(x, y, 3);
        let f = self.f;
        if choice == VtChoice::Descend {
            let s1 = self.stamp_16(s, x, y);
            let s2 = self.stamp_16(s1, x + 16, y);
            let s3 = self.stamp_16(s2, x, y + 16);
            self.lemma_stamp_16(s, x, y, r2, c2);
            self.lemma_stamp_16(s1, x + 16, y, r2, c2);
            self.lemma_stamp_16(s2, x, y + 16, r2, c2);
            self.lemma_stamp_16(s3, x + 16, y + 16, r2, c2);
        } else {
            lemma_vt_stamp(s, f, choice, 9, self.row(y), self.col(x), r2, c2);
        }
    }
}

impl SbContext {
    proof fn lemma_read_32(self, s: Seq<u8>, x: int, y: int)
        requires
            self.placed(s),
            x >= 0 && y >= 0 && x % 32 == 0 && y % 32 == 0,
            self.row(y) < self.f.mi_rows,
            self.col(x) < self.f.mi_cols,
        ensures
            self.read(self.stamp_32(s, x, y), x, y, 9) == choice_code(self.choice(x, y, 3)),
    {
        let r = self.row(y);
        let c = self.col(x);
        self.lemma_stamp_32(s, x, y, r, c);
        if r + 4 < self.f.mi_rows && c + 4 < self.f.mi_cols {
            self.lemma_stamp_32(s, x, y, r, c + 4);
            self.lemma_stamp_32(s, x, y, r + 4, c);
        }
    }

    /// Two grids that agree on a square give its blocks the same partition.
    proof fn lemma_read_same(self, s: Seq<u8>, t: Seq<u8>, x: int, y: int, bsize: int, n: int)
        requires
            bsize == 6 && n == 4 || bsize == 9 && n == 8 || bsize == 12 && n == 16,
            self.row(y) >= 0,
            self.col(x) >= 0,
            forall|r: int, c: int|
                in_square(r, c, self.row(y), self.col(x), n) && r < self.f.mi_rows && c
                    < self.f.mi_cols ==> #[trigger] cell(s, self.f.mi_cols as int, r, c) == cell(
                    t,
                    self.f.mi_cols as int,
                    r,
                    c,
                ),
        ensures
            self.read(s, x, y, bsize) == self.read(t, x, y, bsize),
    {
        let r = self.row(y);
        let c = self.col(x);
        let m = self.f.mi_cols as int;
        if r < self.f.mi_rows && c < self.f.mi_cols {
            assert(cell(s, m, r, c) == cell(t, m, r, c));
            if r + n / 2 < self.f.mi_rows && c + n / 2 < self.f.mi_cols {
                assert(cell(s, m, r, c + n / 2) == cell(t, m, r, c + n / 2));
                assert(cell(s, m, r + n / 2, c) == cell(t, m, r + n / 2, c));
            }
        }
    }

    proof fn lemma_outside_32(self, s: Seq<u8>, x: int, y: int, r: int, c: int)
        requires
            self.placed(s),
            x >= 0 && y >= 0 && x % 32 == 0 && y % 32 == 0,
            0 <= r < self.f.mi_rows,
            0 <= c < self.f.mi_cols,
        ensures
            self.stamp_32(s, x, y).len() == s.len(),
            !in_square(r, c, self.row(y), self.col(x), 8) ==> cell(
                self.stamp_32(s, x, y),
                self.f.mi_cols as int,
                r,
                c,
            ) == cell(s, self.f.mi_cols as int, r, c),
    {
        self.lemma_stamp_32(s, x, y, r, c);
    }

    /// Stamping one 32x32 block leaves the cells of every other one alone.
    proof fn lemma_other_32(self, s: Seq<u8>, x: int, y: int, x2: int, y2: int)
        requires
            self.placed(s),
            x >= 0 && y >= 0 && x % 32 == 0 && y % 32 == 0,
            x2 >= 0 && y2 >= 0 && x2 % 32 == 0 && y2 % 32 == 0,
            x != x2 || y != y2,
        ensures
            self.stamp_32(s, x, y).len() == s.len(),
            forall|r: int, c: int|
                in_square(r, c, self.row(y2), self.col(x2), 8) && r < self.f.mi_rows && c
                    < self.f.mi_cols ==> #[trigger] cell(
                    self.stamp_32(s, x, y),
                    self.f.mi_cols as int,
                    r,
                    c,
                ) == cell(s, self.f.mi_cols as int, r, c),
    {
        self.lemma_outside_32(s, x, y, 0, 0);
        assert forall|r: int, c: int|
            in_square(r, c, self.row(y2), self.col(x2), 8) && r < self.f.mi_rows && c
                < self.f.mi_cols implies #[trigger] cell(
            self.stamp_32(s, x, y),
            self.f.mi_cols as int,
            r,
            c,
        ) == cell(s, self.f.mi_cols as int, r, c) by {
            self.lemma_outside_32(s, x, y, r, c);
        }
    }
}

impl SbContext {
    /// The grid after the first `n` of the four 32x32 blocks of the 64x64
    /// block at `(x, y)`.
    spec fn prefix_64(self, s: Seq<u8>, x: int, y: int, n: int) -> Seq<u8>
        decreases n,
    {
        if n <= 0 {
            s
        } else {
            self.stamp_32(
                self.prefix_64(s, x, y, n - 1),
                x + 32 * ((n - 1) % 2),
                y + 32 * ((n - 1) / 2),
            )
        }
    }

    proof fn lemma_prefix_64(self, s: Seq<u8>, x: int, y: int)
        ensures
            self.prefix_64(s, x, y, 4) == self.stamp_64(s, x, y),
    {
        reveal_with_fuel(SbContext::prefix_64, 5);
    }

    /// Once its turn has come, a 32x32 block keeps its partition; before, its
    /// cells are as they were.
    proof fn lemma_prefix_read(self, s: Seq<u8>, x: int, y: int, n: int, k: int)
        requires
            self.placed(s),
            x >= 0 && y >= 0 && x % 64 == 0 && y % 64 == 0,
            0 <= k < n <= 4,
            self.row(y + 32 * (k / 2)) < self.f.mi_rows,
            self.col(x + 32 * (k % 2)) < self.f.mi_cols,
        ensures
            self.prefix_64(s, x, y, n).len() == s.len(),
            self.read(self.prefix_64(s, x, y, n), x + 32 * (k % 2), y + 32 * (k / 2), 9)
                == choice_code(self.choice(x + 32 * (k % 2), y + 32 * (k / 2), 3)),
        decreases n,
    {
        let x2 = x + 32 * (k % 2);
        let y2 = y + 32 * (k / 2);
        let x1 = x + 32 * ((n - 1) % 2);
        let y1 = y + 32 * ((n - 1) / 2);
        let before = self.prefix_64(s, x, y, n - 1);
        self.lemma_prefix_len(s, x, y, n - 1);
        self.lemma_outside_32(before, x1, y1, 0, 0);
        if k == n - 1 {
            self.lemma_read_32(before, x2, y2);
        } else {
            self.lemma_prefix_read(s, x, y, n - 1, k);
            self.lemma_other_32(before, x1, y1, x2, y2);
            self.lemma_read_same(self.stamp_32(before, x1, y1), before, x2, y2, 9, 8);
        }
    }

    proof fn lemma_prefix_len(self, s: Seq<u8>, x: int, y: int, n: int)
        requires
            self.placed(s),
            x >= 0 && y >= 0 && x % 32 == 0 && y % 32 == 0,
        ensures
            self.prefix_64(s, x, y, n).len() == s.len(),
        decreases n,
    {
        if n > 0 {
            self.lemma_prefix_len(s, x, y, n - 1);
            self.lemma_outside_32(
                self.prefix_64(s, x, y, n - 1),
                x + 32 * ((n - 1) % 2),
                y + 32 * ((n - 1) / 2),
                0,
                0,
            );
        }
    }

    /// Partitioning one 64x64 block leaves the cells outside it alone.
    proof fn lemma_outside_64(self, s: Seq<u8>, x: int, y: int, r: int, c: int)
        requires
            self.placed(s),
            x >= 0 && y >= 0 && x % 64 == 0 && y % 64 == 0,
            0 <= r < self.f.mi_rows,
            0 <= c < self.f.mi_cols,
        ensures
            self.stamp_64(s, x, y).len() == s.len(),
            !in_square(r, c, self.row(y), self.col(x), 16) ==> cell(
                self.stamp_64(s, x, y),
                self.f.mi_cols as int,
                r,
                c,
            ) == cell(s, self.f.mi_cols as int, r, c),
    {
        let s1 = self.stamp_32(s, x, y);
        let s2 = self.stamp_32(s1, x + 32, y);
        let s3 = self.stamp_32(s2, x, y + 32);
        self.lemma_outside_32(s, x, y, r, c);
        self.lemma_outside_32(s1, x + 32, y, r, c);
        self.lemma_outside_32(s2, x, y + 32, r, c);
        self.lemma_outside_32(s3, x + 32, y + 32, r, c);
    }

    /// The grid after the first `n` of the 64x64 blocks of the superblock.
    spec fn prefix_sb(self, s: Seq<u8>, n: int) -> Seq<u8>
        decreases n,
    {
        if n <= 0 {
            s
        } else {
            self.stamp_64(self.prefix_sb(s, n - 1), 64 * ((n - 1) % 2), 64 * ((n - 1) / 2))
        }
    }

    proof fn lemma_prefix_sb(self, s: Seq<u8>)
        ensures
            self.f.sb_size == BLOCK_64X64 ==> self.prefix_sb(s, 1) == self.stamp_sb(s),
            self.f.sb_size != BLOCK_64X64 ==> self.prefix_sb(s, 4) == self.stamp_sb(s),
    {
        reveal_with_fuel(SbContext::prefix_sb, 5);
    }

    proof fn lemma_sb_len(self, s: Seq<u8>, n: int)
        requires
            self.placed(s),
        ensures
            self.prefix_sb(s, n).len() == s.len(),
        decreases n,
    {
        if 0 < n {
            self.lemma_sb_len(s, n - 1);
            self.lemma_outside_64(
                self.prefix_sb(s, n - 1),
                64 * ((n - 1) % 2),
                64 * ((n - 1) / 2),
                0,
                0,
            );
        }
    }

    proof fn lemma_sb_read(self, s: Seq<u8>, n: int, j: int, k: int)
        requires
            self.placed(s),
            0 <= j < n <= 4,
            0 <= k < 4,
            self.row(64 * (j / 2) + 32 * (k / 2)) < self.f.mi_rows,
            self.col(64 * (j % 2) + 32 * (k % 2)) < self.f.mi_cols,
        ensures
            ({
                let x = 64 * (j % 2) + 32 * (k % 2);
                let y = 64 * (j / 2) + 32 * (k / 2);
                self.read(self.prefix_sb(s, n), x, y, 9) == choice_code(self.choice(x, y, 3))
            }),
        decreases n,
    {
        let x = 64 * (j % 2) + 32 * (k % 2);
        let y = 64 * (j / 2) + 32 * (k / 2);
        let before = self.prefix_sb(s, n - 1);
        let x1 = 64 * ((n - 1) % 2);
        let y1 = 64 * ((n - 1) / 2);
        self.lemma_sb_len(s, n - 1);
        if j == n - 1 {
            self.lemma_prefix_64(before, x1, y1);
            self.lemma_prefix_read(before, x1, y1, 4, k);
        } else {
            self.lemma_sb_read(s, n - 1, j, k);
            let after = self.stamp_64(before, x1, y1);
            let m = self.f.mi_cols as int;
            assert forall|r: int, c: int|
                in_square(r, c, self.row(y), self.col(x), 8) && r < self.f.mi_rows && c
                    < self.f.mi_cols implies #[trigger] cell(after, m, r, c) == cell(
                before,
                m,
                r,
                c,
            ) by {
                self.lemma_outside_64(before, x1, y1, r, c);
            }
            self.lemma_read_same(after, before, x, y, 9, 8);
        }
    }

    /// What is read back of a partitioned superblock: every 32x32 block of it
    /// that starts inside the frame has the partition type that was chosen for
    /// it, whichever neighbours were stamped after it.
    pub proof fn law_partition_reads_back(self, s: Seq<u8>, x: int, y: int)
        requires
            self.placed(s),
            x == 0 || x == 32 || self.f.sb_size == BLOCK_128X128 && (x == 64 || x == 96),
            y == 0 || y == 32 || self.f.sb_size == BLOCK_128X128 && (y == 64 || y == 96),
            self.mi_row + y / 4 < self.f.mi_rows,
            self.mi_col + x / 4 < self.f.mi_cols,
        ensures
            partition_at(
                self.stamp_sb(s),
                self.f.mi_rows as int,
                self.f.mi_cols as int,
                self.mi_row + y / 4,
                self.mi_col + x / 4,
                BLOCK_32X32 as int,
            ) == choice_code(self.choice(x, y, 3)),
    {
        let j = 2 * (y / 64) + x / 64;
        let k = 2 * ((y % 64) / 32) + (x % 64) / 32;
        let n = if self.f.sb_size == BLOCK_64X64 {
            1int
        } else {
            4
        };
        self.lemma_sb_read(s, n, j, k);
        self.lemma_prefix_sb(s);
    }

    /// A superblock's partition touches no cell outside the superblock.
    pub proof fn law_partition_stays_inside(self, s: Seq<u8>, r: int, c: int)
        requires
            self.placed(s),
            0 <= r < self.f.mi_rows,
            0 <= c < self.f.mi_cols,
            !in_square(
                r,
                c,
                self.mi_row,
                self.mi_col,
                if self.f.sb_size == BLOCK_64X64 {
                    16
                } else {
                    32
                },
            ),
        ensures
            cell(self.stamp_sb(s), self.f.mi_cols as int, r, c) == cell(
                s,
                self.f.mi_cols as int,
                r,
                c,
            ),
    {
        self.lemma_outside_64(s, 0, 0, r, c);
        if self.f.sb_size != BLOCK_64X64 {
            let s1 = self.stamp_64(s, 0, 0);
            self.lemma_outside_64(s1, 64, 0, r, c);
            let s2 = self.stamp_64(s1, 64, 0);
            self.lemma_outside_64(s2, 0, 64, r, c);
            let s3 = self.stamp_64(s2, 0, 64);
            self.lemma_outside_64(s3, 64, 64, r, c);
        }
    }
}

/// A block of uniform samples has variance zero.
pub proof fn law_flat_block_has_no_variance(leaf: int, log2: int)
    requires
        0 <= log2 <= 6,
    ensures
        variance_value(pow2i(log2) * (leaf * leaf), pow2i(log2) * leaf, log2) == 0,
{
    lemma_pow2i_pos(log2);
    let n = pow2i(log2);
    assert((n * leaf) * (n * leaf) == n * (n * (leaf * leaf))) by (nonlinear_arith);
    vstd::arithmetic::div_mod::lemma_div_multiples_vanish(n * (leaf * leaf), n);
    assert(0int / n == 0) by (nonlinear_arith)
        requires
            n >= 1,
    ;
}

/// `t` is `s` with sizes from 8x8 to 32x32 written over some of its cells.
pub open spec fn restamped(s: Seq<u8>, t: Seq<u8>) -> bool {
    &&& t.len() == s.len()
    &&& forall|k: int|
        0 <= k < s.len() ==> #[trigger] t[k] == s[k] || BLOCK_8X8 <= t[k] <= BLOCK_32X32
}

proof fn lemma_restamped_stamp(s: Seq<u8>, t: Seq<u8>, f: VbpFrame, r: int, c: int, bsize: int)
    requires
        restamped(s, t),
        BLOCK_8X8 <= bsize <= BLOCK_32X32,
        s.len() == f.mi_rows * f.mi_cols,
        0 <= r,
        0 <= c,
    ensures
        restamped(s, stamp(t, f, r, c, bsize)),
{
    let after = stamp(t, f, r, c, bsize);
    if r < f.mi_rows && c < f.mi_cols {
        lemma_cell(f.mi_rows as int, f.mi_cols as int, r, c);
    }
    assert forall|k: int| 0 <= k < s.len() implies #[trigger] after[k] == s[k] || BLOCK_8X8
        <= after[k] <= BLOCK_32X32 by {
        assert(t[k] == s[k] || BLOCK_8X8 <= t[k] <= BLOCK_32X32);
    }
}

proof fn lemma_restamped_vt(
    s: Seq<u8>,
    t: Seq<u8>,
    f: VbpFrame,
    choice: VtChoice,
    bsize: int,
    r: int,
    c: int,
)
    requires
        restamped(s, t),
        bsize == BLOCK_16X16 || bsize == BLOCK_32X32,
        s.len() == f.mi_rows * f.mi_cols,
        0 <= r,
        0 <= c,
    ensures
        restamped(s, vt_stamp(t, f, choice, bsize, r, c)),
{
    let half = MI_SIZE_WIDE_B[bsize] as int / 2;
    match choice {
        VtChoice::Descend => {},
        VtChoice::Whole => {
            lemma_restamped_stamp(s, t, f, r, c, bsize);
        },
        VtChoice::Columns => {
            lemma_restamped_stamp(s, t, f, r, c, bsize - 2);
            lemma_restamped_stamp(s, stamp(t, f, r, c, bsize - 2), f, r, c + half, bsize - 2);
        },
        VtChoice::Rows => {
            lemma_restamped_stamp(s, t, f, r, c, bsize - 1);
            lemma_restamped_stamp(s, stamp(t, f, r, c, bsize - 1), f, r + half, c, bsize - 1);
        },
    }
}

impl SbContext {
    proof fn lemma_restamped_8(self, s: Seq<u8>, t: Seq<u8>, x: int, y: int)
        requires
            self.placed(s),
            restamped(s, t),
            0 <= x,
            0 <= y,
        ensures
            restamped(s, self.stamp_8(t, x, y)),
    {
        lemma_restamped_stamp(s, t, self.f, self.row(y), self.col(x), BLOCK_8X8 as int);
    }

    proof fn lemma_restamped_16(self, s: Seq<u8>, t: Seq<u8>, x: int, y: int)
        requires
            self.placed(s),
            restamped(s, t),
            0 <= x,
            0 <= y,
        ensures
            restamped(s, self.stamp_16(t, x, y)),
    {
        reveal(SbContext::stamp_16);
        lemma_restamped_vt(
            s,
            t,
            self.f,
            self.choice(x, y, 2),
            BLOCK_16X16 as int,
            self.row(y),
            self.col(x),
        );
        self.lemma_restamped_8(s, t, x, y);
        let t1 = self.stamp_8(t, x, y);
        self.lemma_restamped_8(s, t1, x + 8, y);
        let t2 = self.stamp_8(t1, x + 8, y);
        self.lemma_restamped_8(s, t2, x, y + 8);
        let t3 = self.stamp_8(t2, x, y + 8);
        self.lemma_restamped_8(s, t3, x + 8, y + 8);
    }

    proof fn lemma_restamped_32(self, s: Seq<u8>, t: Seq<u8>, x: int, y: int)
        requires
            self.placed(s),
            restamped(s, t),
            0 <= x,
            0 <= y,
        ensures
            restamped(s, self.stamp_32(t, x, y)),
    {
        reveal(SbContext::stamp_32);
        lemma_restamped_vt(
            s,
            t,
            self.f,
            self.choice(x, y, 3),
            BLOCK_32X32 as int,
            self.row(y),
            self.col(x),
        );
        self.lemma_restamped_16(s, t, x, y);
        let t1 = self.stamp_16(t, x, y);
        self.lemma_restamped_16(s, t1, x + 16, y);
        let t2 = self.stamp_16(t1, x + 16, y);
        self.lemma_restamped_16(s, t2, x, y + 16);
        let t3 = self.stamp_16(t2, x, y + 16);
        self.lemma_restamped_16(s, t3, x + 16, y + 16);
    }

    proof fn lemma_restamped_64(self, s: Seq<u8>, t: Seq<u8>, x: int, y: int)
        requires
            self.placed(s),
            restamped(s, t),
            0 <= x,
            0 <= y,
        ensures
            restamped(s, self.stamp_64(t, x, y)),
    {
        self.lemma_restamped_32(s, t, x, y);
        let t1 = self.stamp_32(t, x, y);
        self.lemma_restamped_32(s, t1, x + 32, y);
        let t2 = self.stamp_32(t1, x + 32, y);
        self.lemma_restamped_32(s, t2, x, y + 32);
        let t3 = self.stamp_32(t2, x, y + 32);
        self.lemma_restamped_32(s, t3, x + 32, y + 32);
    }

    /// On a key frame blocks are no larger than 32x32 and no smaller than 8x8:
    /// the partition of a superblock writes no other size.
    pub proof fn law_partition_writes_8x8_to_32x32(self, s: Seq<u8>)
        requires
            self.placed(s),
        ensures
            restamped(s, self.stamp_sb(s)),
    {
        self.lemma_restamped_64(s, s, 0, 0);
        let t1 = self.stamp_64(s, 0, 0);
        self.lemma_restamped_64(s, t1, 64, 0);
        let t2 = self.stamp_64(t1, 64, 0);
        self.lemma_restamped_64(s, t2, 0, 64);
        let t3 = self.stamp_64(t2, 0, 64);
        self.lemma_restamped_64(s, t3, 64, 64);
    }
}

impl SbContext {
    /// A cell of 32x32 block `k` of a 64x64 block, after its turn.
    proof fn lemma_cell_64(self, s: Seq<u8>, x: int, y: int, n: int, k: int, r: int, c: int) -> (t:
        Seq<u8>)
        requires
            self.placed(s),
            x >= 0 && y >= 0 && x % 64 == 0 && y % 64 == 0,
            0 <= k < n <= 4,
            in_square(r, c, self.row(y + 32 * (k / 2)), self.col(x + 32 * (k % 2)), 8),
            r < self.f.mi_rows,
            c < self.f.mi_cols,
        ensures
            self.placed(t),
            cell(self.prefix_64(s, x, y, n), self.f.mi_cols as int, r, c) == cell(
                self.stamp_32(t, x + 32 * (k % 2), y + 32 * (k / 2)),
                self.f.mi_cols as int,
                r,
                c,
            ),
            cell(t, self.f.mi_cols as int, r, c) == cell(s, self.f.mi_cols as int, r, c),
        decreases n,
    {
        let x1 = x + 32 * ((n - 1) % 2);
        let y1 = y + 32 * ((n - 1) / 2);
        let before = self.prefix_64(s, x, y, n - 1);
        self.lemma_prefix_len(s, x, y, n - 1);
        if k == n - 1 {
            self.lemma_cell_untouched_64(s, x, y, n - 1, k, r, c);
            before
        } else {
            self.lemma_outside_32(before, x1, y1, r, c);
            self.lemma_cell_64(s, x, y, n - 1, k, r, c)
        }
    }

    /// The same cell, before its turn.
    proof fn lemma_cell_untouched_64(
        self,
        s: Seq<u8>,
        x: int,
        y: int,
        n: int,
        k: int,
        r: int,
        c: int,
    )
        requires
            self.placed(s),
            x >= 0 && y >= 0 && x % 64 == 0 && y % 64 == 0,
            0 <= n <= k < 4,
            in_square(r, c, self.row(y + 32 * (k / 2)), self.col(x + 32 * (k % 2)), 8),
            r < self.f.mi_rows,
            c < self.f.mi_cols,
        ensures
            cell(self.prefix_64(s, x, y, n), self.f.mi_cols as int, r, c) == cell(
                s,
                self.f.mi_cols as int,
                r,
                c,
            ),
        decreases n,
    {
        if n > 0 {
            let x1 = x + 32 * ((n - 1) % 2);
            let y1 = y + 32 * ((n - 1) / 2);
            let before = self.prefix_64(s, x, y, n - 1);
            self.lemma_prefix_len(s, x, y, n - 1);
            self.lemma_outside_32(before, x1, y1, r, c);
            self.lemma_cell_untouched_64(s, x, y, n - 1, k, r, c);
        }
    }

    /// A cell of the superblock's 64x64 block `j`, before its turn.
    proof fn lemma_cell_untouched_sb(self, s: Seq<u8>, n: int, j: int, r: int, c: int)
        requires
            self.placed(s),
            0 <= n <= j < 4,
            in_square(r, c, self.row(64 * (j / 2)), self.col(64 * (j % 2)), 16),
            r < self.f.mi_rows,
            c < self.f.mi_cols,
        ensures
            cell(self.prefix_sb(s, n), self.f.mi_cols as int, r, c) == cell(
                s,
                self.f.mi_cols as int,
                r,
                c,
            ),
        decreases n,
    {
        if n > 0 {
            let before = self.prefix_sb(s, n - 1);
            self.lemma_sb_len(s, n - 1);
            self.lemma_outside_64(before, 64 * ((n - 1) % 2), 64 * ((n - 1) / 2), r, c);
            self.lemma_cell_untouched_sb(s, n - 1, j, r, c);
        }
    }

    /// A cell of 32x32 block `k` of 64x64 block `j`, after its turn.
    proof fn lemma_cell_sb(self, s: Seq<u8>, n: int, j: int, k: int, r: int, c: int) -> (t: Seq<u8>)
        requires
            self.placed(s),
            0 <= j < n <= 4,
            0 <= k < 4,
            in_square(
                r,
                c,
                self.row(64 * (j / 2) + 32 * (k / 2)),
                self.col(64 * (j % 2) + 32 * (k % 2)),
                8,
            ),
            r < self.f.mi_rows,
            c < self.f.mi_cols,
        ensures
            self.placed(t),
            cell(self.prefix_sb(s, n), self.f.mi_cols as int, r, c) == cell(
                self.stamp_32(t, 64 * (j % 2) + 32 * (k % 2), 64 * (j / 2) + 32 * (k / 2)),
                self.f.mi_cols as int,
                r,
                c,
            ),
            cell(t, self.f.mi_cols as int, r, c) == cell(s, self.f.mi_cols as int, r, c),
        decreases n,
    {
        let before = self.prefix_sb(s, n - 1);
        self.lemma_sb_len(s, n - 1);
        let x1 = 64 * ((n - 1) % 2);
        let y1 = 64 * ((n - 1) / 2);
        if j == n - 1 {
            self.lemma_cell_untouched_sb(s, n - 1, j, r, c);
            self.lemma_prefix_64(before, x1, y1);
            self.lemma_cell_64(before, x1, y1, 4, k, r, c)
        } else {
            self.lemma_outside_64(before, x1, y1, r, c);
            self.lemma_cell_sb(s, n - 1, j, k, r, c)
        }
    }

    /// A multiple of `side` within the superblock.
    pub open spec fn in_sb(self, x: int, side: int) -> bool {
        0 <= x < (if self.f.sb_size == BLOCK_64X64 {
            64int
        } else {
            128
        }) && x % side == 0
    }

    /// What a cell of the 32x32 block at `(x, y)` holds in the end.
    proof fn lemma_cell_of_32(self, s: Seq<u8>, x: int, y: int, r: int, c: int) -> (t: Seq<u8>)
        requires
            self.placed(s),
            self.in_sb(x, 32) && self.in_sb(y, 32),
            in_square(r, c, self.row(y), self.col(x), 8),
            r < self.f.mi_rows,
            c < self.f.mi_cols,
        ensures
            self.placed(t),
            cell(self.stamp_sb(s), self.f.mi_cols as int, r, c) == cell(
                self.stamp_32(t, x, y),
                self.f.mi_cols as int,
                r,
                c,
            ),
            cell(t, self.f.mi_cols as int, r, c) == cell(s, self.f.mi_cols as int, r, c),
    {
        let j = 2 * (y / 64) + x / 64;
        let k = 2 * ((y % 64) / 32) + (x % 64) / 32;
        let n = if self.f.sb_size == BLOCK_64X64 {
            1int
        } else {
            4
        };
        assert(64 * (j % 2) + 32 * (k % 2) == x && 64 * (j / 2) + 32 * (k / 2) == y);
        self.lemma_prefix_sb(s);
        self.lemma_cell_sb(s, n, j, k, r, c)
    }

    /// What a cell of the 16x16 block at `(x, y)` holds in the end, where the
    /// 32x32 block around it splits.
    #[verifier::spinoff_prover]
    #[verifier::rlimit(60)]
    proof fn lemma_cell_of_16(self, s: Seq<u8>, x: int, y: int, r: int, c: int) -> (t: Seq<u8>)
        requires
            self.placed(s),
            self.in_sb(x, 16) && self.in_sb(y, 16),
            self.choice(x - x % 32, y - y % 32, 3) == VtChoice::Descend,
            in_square(r, c, self.row(y), self.col(x), 4),
            r < self.f.mi_rows,
            c < self.f.mi_cols,
        ensures
            self.placed(t),
            cell(self.stamp_sb(s), self.f.mi_cols as int, r, c) == cell(
                self.stamp_16(t, x, y),
                self.f.mi_cols as int,
                r,
                c,
            ),
            cell(t, self.f.mi_cols as int, r, c) == cell(s, self.f.mi_cols as int, r, c),
    {
        let x0 = x - x % 32;
        let y0 = y - y % 32;
        let t0 = self.lemma_cell_of_32(s, x0, y0, r, c);
        let t1 = self.stamp_16(t0, x0, y0);
        let t2 = self.stamp_16(t1, x0 + 16, y0);
        let t3 = self.stamp_16(t2, x0, y0 + 16);
        let t4 = self.stamp_16(t3, x0 + 16, y0 + 16);
        assert(self.stamp_32(t0, x0, y0) == t4) by {
            reveal(SbContext::stamp_32);
        }
        self.lemma_outside_16(t0, x0, y0, r, c);
        self.lemma_outside_16(t1, x0 + 16, y0, r, c);
        self.lemma_outside_16(t2, x0, y0 + 16, r, c);
        self.lemma_outside_16(t3, x0 + 16, y0 + 16, r, c);
        assert(x == x0 || x == x0 + 16);
        assert(y == y0 || y == y0 + 16);
        assert(self.col(x0 + 16) == self.col(x0) + 4 && self.row(y0 + 16) == self.row(y0) + 4);
        if x == x0 && y == y0 {
            t0
        } else if y == y0 {
            t1
        } else if x == x0 {
            t2
        } else {
            t3
        }
    }

    proof fn lemma_outside_16(self, s: Seq<u8>, x: int, y: int, r: int, c: int)
        requires
            self.placed(s),
            x >= 0 && y >= 0 && x % 16 == 0 && y % 16 == 0,
            0 <= r < self.f.mi_rows,
            0 <= c < self.f.mi_cols,
        ensures
            self.stamp_16(s, x, y).len() == s.len(),
            !in_square(r, c, self.row(y), self.col(x), 4) ==> cell(
                self.stamp_16(s, x, y),
                self.f.mi_cols as int,
                r,
                c,
            ) == cell(s, self.f.mi_cols as int, r, c),
    {
        self.lemma_stamp_16(s, x, y, r, c);
    }

    /// A 16x16 block that is split, or stays whole.
    proof fn lemma_settled_16(self, s: Seq<u8>, x: int, y: int, r: int, c: int)
        requires
            self.placed(s),
            x >= 0 && y >= 0 && x % 16 == 0 && y % 16 == 0,
            0 <= r < self.f.mi_rows,
            0 <= c < self.f.mi_cols,
        ensures
            self.choice(x, y, 2) == VtChoice::Descend && (r == self.row(y) || r == self.row(y) + 2)
                && (c == self.col(x) || c == self.col(x) + 2) ==> cell(
                self.stamp_16(s, x, y),
                self.f.mi_cols as int,
                r,
                c,
            ) == 3,
            self.choice(x, y, 2) == VtChoice::Whole ==> cell(
                self.stamp_16(s, x, y),
                self.f.mi_cols as int,
                r,
                c,
            ) == if r == self.row(y) && c == self.col(x) {
                6
            } else {
                cell(s, self.f.mi_cols as int, r, c)
            },
    {
        reveal(SbContext::stamp_16);
        let f = self.f;
        let choice = self.choice(x, y, 2);
        if choice == VtChoice::Descend {
            let s1 = self.stamp_8(s, x, y);
            let s2 = self.stamp_8(s1, x + 8, y);
            let s3 = self.stamp_8(s2, x, y + 8);
            lemma_stamp_cell(s, f, self.row(y), self.col(x), 3, r, c);
            lemma_stamp_cell(s1, f, self.row(y), self.col(x + 8), 3, r, c);
            lemma_stamp_cell(s2, f, self.row(y + 8), self.col(x), 3, r, c);
            lemma_stamp_cell(s3, f, self.row(y + 8), self.col(x + 8), 3, r, c);
        } else if choice == VtChoice::Whole {
            lemma_stamp_cell(s, f, self.row(y), self.col(x), 6, r, c);
        }
    }

    /// A textured 16x16 block is split: where its variance exceeds the 16x16
    /// threshold, each of its 8x8 quadrants that lies in the frame is a block
    /// of its own. Where sub-blocks prune splits, this takes quadrants whose
    /// variances are more than four thresholds apart.
    pub proof fn law_textured_block_splits(
        self,
        s: Seq<u8>,
        x: int,
        y: int,
        a: (int, int),
        b: (int, int),
        q: (int, int),
    )
        requires
            self.placed(s),
            self.in_sb(x, 16) && self.in_sb(y, 16),
            self.g.variance(x, y, 2) > self.threshold_16,
            a.0 == 0 || a.0 == 8,
            a.1 == 0 || a.1 == 8,
            b.0 == 0 || b.0 == 8,
            b.1 == 0 || b.1 == 8,
            self.prune_16x16 ==> self.g.variance(x + a.0, y + a.1, 1) - self.g.variance(
                x + b.0,
                y + b.1,
                1,
            ) > 4 * self.threshold_16,
            q.0 == 0 || q.0 == 8,
            q.1 == 0 || q.1 == 8,
            self.mi_row + (y + q.1) / 4 < self.f.mi_rows,
            self.mi_col + (x + q.0) / 4 < self.f.mi_cols,
        ensures
            self.stamp_sb(s)[(self.mi_row + (y + q.1) / 4) * self.f.mi_cols + self.mi_col + (x
                + q.0) / 4] == BLOCK_8X8,
    {
        self.lemma_over_16(x, y);
        assert(self.force_16(x, y) == PartEval::OnlySplit);
        assert(self.choice(x, y, 2) == VtChoice::Descend);
        let (r, c) = (self.row(y + q.1), self.col(x + q.0));
        let t = self.lemma_cell_of_16(s, x, y, r, c);
        self.lemma_settled_16(t, x, y, r, c);
    }

    /// A textured 16x16 block whose quadrants are textured alike stays whole
    /// where sub-blocks prune splits and it lies inside its tile.
    pub proof fn law_evenly_textured_block_stays_whole(
        self,
        s: Seq<u8>,
        x: int,
        y: int,
        low: int,
        r: int,
        c: int,
    )
        requires
            self.placed(s),
            self.in_sb(x, 16) && self.in_sb(y, 16),
            self.g.variance(x, y, 2) > self.threshold_16,
            self.prune_16x16,
            low <= self.g.variance(x, y, 1) <= low + 4 * self.threshold_16,
            low <= self.g.variance(x + 8, y, 1) <= low + 4 * self.threshold_16,
            low <= self.g.variance(x, y + 8, 1) <= low + 4 * self.threshold_16,
            low <= self.g.variance(x + 8, y + 8, 1) <= low + 4 * self.threshold_16,
            self.mi_row + y / 4 + 4 <= self.f.tile_mi_row_end <= self.f.mi_rows,
            self.mi_col + x / 4 + 4 <= self.f.tile_mi_col_end <= self.f.mi_cols,
            0 <= r < 4,
            0 <= c < 4,
        ensures
            ({
                let k = (self.mi_row + y / 4 + r) * self.f.mi_cols + self.mi_col + x / 4 + c;
                self.stamp_sb(s)[k] == if r == 0 && c == 0 {
                    BLOCK_16X16 as u8
                } else {
                    s[k]
                }
            }),
    {
        self.lemma_over_16(x, y);
        self.lemma_even_16(x, y, low);
        assert(self.choice(x, y, 2) == VtChoice::Whole);
        self.lemma_whole_16(s, x, y, r, c);
    }

    proof fn lemma_over_16(self, x: int, y: int)
        requires
            self.in_sb(x, 16) && self.in_sb(y, 16),
            self.g.variance(x, y, 2) > self.threshold_16,
        ensures
            self.choice(x - x % 32, y - y % 32, 3) == VtChoice::Descend,
    {
        assert(self.over_16(x - x % 32, y - y % 32));
    }

    proof fn lemma_even_16(self, x: int, y: int, low: int)
        requires
            self.g.variance(x, y, 2) > self.threshold_16,
            self.prune_16x16,
            low <= self.g.variance(x, y, 1) <= low + 4 * self.threshold_16,
            low <= self.g.variance(x + 8, y, 1) <= low + 4 * self.threshold_16,
            low <= self.g.variance(x, y + 8, 1) <= low + 4 * self.threshold_16,
            low <= self.g.variance(x + 8, y + 8, 1) <= low + 4 * self.threshold_16,
        ensures
            self.force_16(x, y) == PartEval::OnlyNone,
    {
        let a = self.g.variance(x, y, 1);
        let b = self.g.variance(x + 8, y, 1);
        let c = self.g.variance(x, y + 8, 1);
        let d = self.g.variance(x + 8, y + 8, 1);
        assert(self.spread_8x8(x, y) == max_int(max_int(a, b), max_int(c, d)) - min_int(
            min_int(a, b),
            min_int(c, d),
        ));
    }

    proof fn lemma_whole_16(self, s: Seq<u8>, x: int, y: int, r: int, c: int)
        requires
            self.placed(s),
            self.in_sb(x, 16) && self.in_sb(y, 16),
            self.choice(x - x % 32, y - y % 32, 3) == VtChoice::Descend,
            self.choice(x, y, 2) == VtChoice::Whole,
            self.row(y) + r < self.f.mi_rows,
            self.col(x) + c < self.f.mi_cols,
            0 <= r < 4,
            0 <= c < 4,
        ensures
            ({
                let k = (self.mi_row + y / 4 + r) * self.f.mi_cols + self.mi_col + x / 4 + c;
                self.stamp_sb(s)[k] == if r == 0 && c == 0 {
                    BLOCK_16X16 as u8
                } else {
                    s[k]
                }
            }),
    {
        let (rr, cc) = (self.row(y) + r, self.col(x) + c);
        let t = self.lemma_cell_of_16(s, x, y, rr, cc);
        self.lemma_settled_16(t, x, y, rr, cc);
    }

    /// A smooth 16x16 block stays whole: inside its tile, with a variance below
    /// the 16x16 threshold, it is one block where the 32x32 block around it has
    /// to split, for its own variance or for that of another quadrant.
    pub proof fn law_smooth_block_stays_whole(
        self,
        s: Seq<u8>,
        x: int,
        y: int,
        i: int,
        j: int,
        r: int,
        c: int,
    )
        requires
            self.placed(s),
            self.in_sb(x, 16) && self.in_sb(y, 16),
            self.g.variance(x, y, 2) < self.threshold_16,
            i == 0 || i == 16,
            j == 0 || j == 16,
            ({
                let (x0, y0) = (x - x % 32, y - y % 32);
                ||| self.g.variance(x0, y0, 3) > self.threshold_32
                ||| self.g.variance(x0 + i, y0 + j, 2) > self.threshold_16
            }),
            self.mi_row + y / 4 + 4 <= self.f.tile_mi_row_end <= self.f.mi_rows,
            self.mi_col + x / 4 + 4 <= self.f.tile_mi_col_end <= self.f.mi_cols,
            0 <= r < 4,
            0 <= c < 4,
        ensures
            ({
                let k = (self.mi_row + y / 4 + r) * self.f.mi_cols + self.mi_col + x / 4 + c;
                self.stamp_sb(s)[k] == if r == 0 && c == 0 {
                    BLOCK_16X16 as u8
                } else {
                    s[k]
                }
            }),
    {
        let (x0, y0) = (x - x % 32, y - y % 32);
        assert(self.choice(x0, y0, 3) == VtChoice::Descend);
        let (e, m) = (self.g.sse(x, y, 2), self.g.sum(x, y, 2));
        lemma_variance_nonneg(e, m, 4);
        assert(self.choice(x, y, 2) == VtChoice::Whole);
        self.lemma_whole_16(s, x, y, r, c);
    }

    /// A smooth 32x32 block stays whole: inside its tile, with a variance below
    /// the 32x32 threshold and no quadrant above the 16x16 threshold, it is one
    /// block.
    pub proof fn law_smooth_large_block_stays_whole(
        self,
        s: Seq<u8>,
        x: int,
        y: int,
        r: int,
        c: int,
    )
        requires
            self.placed(s),
            self.in_sb(x, 32) && self.in_sb(y, 32),
            self.g.variance(x, y, 3) < self.threshold_32,
            self.g.variance(x, y, 2) <= self.threshold_16,
            self.g.variance(x + 16, y, 2) <= self.threshold_16,
            self.g.variance(x, y + 16, 2) <= self.threshold_16,
            self.g.variance(x + 16, y + 16, 2) <= self.threshold_16,
            self.mi_row + y / 4 + 8 <= self.f.tile_mi_row_end <= self.f.mi_rows,
            self.mi_col + x / 4 + 8 <= self.f.tile_mi_col_end <= self.f.mi_cols,
            0 <= r < 8,
            0 <= c < 8,
        ensures
            ({
                let k = (self.mi_row + y / 4 + r) * self.f.mi_cols + self.mi_col + x / 4 + c;
                self.stamp_sb(s)[k] == if r == 0 && c == 0 {
                    BLOCK_32X32 as u8
                } else {
                    s[k]
                }
            }),
    {
        lemma_variance_nonneg(self.g.sse(x, y, 3), self.g.sum(x, y, 3), 6);
        assert(self.choice(x, y, 3) == VtChoice::Whole);
        let (rr, cc) = (self.row(y) + r, self.col(x) + c);
        let t = self.lemma_cell_of_32(s, x, y, rr, cc);
        assert(self.stamp_32(t, x, y) == stamp(t, self.f, self.row(y), self.col(x), 9)) by {
            reveal(SbContext::stamp_32);
        }
        lemma_stamp_cell(t, self.f, self.row(y), self.col(x), 9, rr, cc);
    }

    /// A large block that is textured as a whole, or in one of its quadrants,
    /// is split: no block above 16x16 starts where it does.
    pub proof fn law_textured_large_block_splits(
        self,
        s: Seq<u8>,
        x: int,
        y: int,
        i: int,
        j: int,
    )
        requires
            self.placed(s),
            self.in_sb(x, 32) && self.in_sb(y, 32),
            i == 0 || i == 16,
            j == 0 || j == 16,
            self.g.variance(x, y, 3) > self.threshold_32 || self.g.variance(x + i, y + j, 2)
                > self.threshold_16,
            self.mi_row + y / 4 < self.f.mi_rows,
            self.mi_col + x / 4 < self.f.mi_cols,
        ensures
            self.stamp_sb(s)[(self.mi_row + y / 4) * self.f.mi_cols + self.mi_col + x / 4]
                <= BLOCK_16X16,
    {
        assert(self.choice(x, y, 3) == VtChoice::Descend);
        let (rr, cc) = (self.row(y), self.col(x));
        let t = self.lemma_cell_of_32(s, x, y, rr, cc);
        self.lemma_stamp_32(t, x, y, rr, cc);
    }
}

impl SbSource {
    /// Each 4x4 group counts once: of two sources that differ in one group
    /// alone, the sum of a square around it differs by the difference of the
    /// groups, and the sum of squares by that of their squares. A group outside
    /// the square does not count.
    pub proof fn law_each_group_counts_once(
        self,
        o: SbSource,
        x: int,
        y: int,
        level: int,
        u: int,
        v: int,
    )
        requires
            0 <= level <= 5,
            x % 4 == 0 && y % 4 == 0 && u % 4 == 0 && v % 4 == 0,
            forall|i: int, j: int|
                (i != u || j != v) ==> #[trigger] self.leaf(i, j) == o.leaf(i, j),
        ensures
            ({
                let side = 4 * pow2i(level);
                let (a, b) = (self.leaf(u, v), o.leaf(u, v));
                if x <= u < x + side && y <= v < y + side {
                    &&& self.sum(x, y, level) - o.sum(x, y, level) == a - b
                    &&& self.sse(x, y, level) - o.sse(x, y, level) == a * a - b * b
                } else {
                    &&& self.sum(x, y, level) == o.sum(x, y, level)
                    &&& self.sse(x, y, level) == o.sse(x, y, level)
                }
            }),
        decreases level,
    {
        if level > 0 {
            let l = level - 1;
            let h = 4 * pow2i(l);
            lemma_pow2i_pos(l);
            assert(pow2i(level) == 2 * pow2i(l));
            assert(h % 4 == 0);
            self.law_each_group_counts_once(o, x, y, l, u, v);
            self.law_each_group_counts_once(o, x + h, y, l, u, v);
            self.law_each_group_counts_once(o, x, y + h, l, u, v);
            self.law_each_group_counts_once(o, x + h, y + h, l, u, v);
        } else {
            assert(self.leaf(x, y) == o.leaf(x, y) || (x == u && y == v));
        }
    }

    /// A square whose groups are all at the middle level adds up to nothing.
    pub proof fn law_middle_level_adds_nothing(self, x: int, y: int, level: int)
        requires
            forall|i: int, j: int| #[trigger] self.leaf(i, j) == 0,
        ensures
            self.sum(x, y, level) == 0,
            self.sse(x, y, level) == 0,
        decreases level,
    {
        if level > 0 {
            let l = level - 1;
            let h = 4 * pow2i(l);
            self.law_middle_level_adds_nothing(x, y, l);
            self.law_middle_level_adds_nothing(x + h, y, l);
            self.law_middle_level_adds_nothing(x, y + h, l);
            self.law_middle_level_adds_nothing(x + h, y + h, l);
        }
    }
}

/// The variance of `n = 2^log2` groups is 256 times the mean of their squares
/// less the square of their mean, up to rounding, as long as it fits 32 bits.
pub proof fn law_variance_is_mean_square_deviation(sse: int, sum: int, log2: int)
    requires
        1 <= log2 <= 6,
        0 <= pow2i(log2) * sse - sum * sum,
        256 * (sse - sum * sum / pow2i(log2)) < 0x1_0000_0000,
    ensures
        ({
            let n = pow2i(log2);
            let v = variance_value(sse, sum, log2);
            &&& n * (n * v) <= 256 * (n * sse - sum * sum) + 256 * n
            &&& 256 * (n * sse - sum * sum) < n * (n * v) + n * n
        }),
{
    lemma_pow2i_values();
    let n = pow2i(log2);
    let sq = sum * sum;
    assert(sq >= 0) by (nonlinear_arith)
        requires
            sq == sum * sum,
    ;
    assert(n == 2 || n == 4 || n == 8 || n == 16 || n == 32 || n == 64);
    let d = sse - sq / n;
    let v = variance_value(sse, sum, log2);
    assert(0 <= d) by {
        if n == 2 {
        } else if n == 4 {
        } else if n == 8 {
        } else if n == 16 {
        } else if n == 32 {
        } else {
        }
    }
    assert(v == 256 * d / n);
    if n == 2 {
    } else if n == 4 {
    } else if n == 8 {
    } else if n == 16 {
    } else if n == 32 {
    } else {
    }
}

/// What a 4x4 group of a superblock adds is the rounded mean of its sixteen
/// samples, less the middle level: those of the rows and columns of the plane
/// where the group lies. A group outside the frame, or outside the superblock,
/// adds nothing.
pub proof fn law_group_is_mean_of_its_samples(
    f: VbpFrame,
    src: Seq<u16>,
    base: int,
    stride: int,
    mi_row: int,
    mi_col: int,
    prune: bool,
    x: int,
    y: int,
)
    requires
        0 <= x,
        0 <= y,
    ensures
        ({
            let g = sb_context(f, src, base, stride, mi_row, mi_col, prune).g;
            let side = if f.sb_size == BLOCK_64X64 {
                64int
            } else {
                128
            };
            let at = |i: int, j: int|
                src[base + (4 * mi_row + y + i) * stride + 4 * mi_col + x + j] as int;
            let total = at(0, 0) + at(0, 1) + at(0, 2) + at(0, 3) + at(1, 0) + at(1, 1) + at(1, 2)
                + at(1, 3) + at(2, 0) + at(2, 1) + at(2, 2) + at(2, 3) + at(3, 0) + at(3, 1) + at(
                3,
                2,
            ) + at(3, 3);
            if x < side && y < side && mi_col * 4 + x < f.mi_cols * 4 && mi_row * 4 + y < f.mi_rows
                * 4 {
                -8 <= total - 16 * (g.leaf(x, y) + 128) < 8
            } else {
                g.leaf(x, y) == 0
            }
        }),
{
    let o = base + mi_row * 4 * stride + mi_col * 4 + y * stride + x;
    assert forall|i: int| 0 <= i < 4 implies base + #[trigger] ((4 * mi_row + y + i) * stride) + 4
        * mi_col + x == o + i * stride by {
        assert((4 * mi_row + y + i) * stride == mi_row * 4 * stride + y * stride + i * stride)
            by (nonlinear_arith);
    }
    assert((4 * mi_row + y + 0) * stride == mi_row * 4 * stride + y * stride) by (nonlinear_arith);
    assert((4 * mi_row + y + 1) * stride == mi_row * 4 * stride + y * stride + stride)
        by (nonlinear_arith);
    assert((4 * mi_row + y + 2) * stride == mi_row * 4 * stride + y * stride + 2 * stride)
        by (nonlinear_arith);
    assert((4 * mi_row + y + 3) * stride == mi_row * 4 * stride + y * stride + 3 * stride)
        by (nonlinear_arith);
}

/// The thresholds of a superblock against 120 quantizer steps: a third of that
/// for 32x32 blocks and half of it for 16x16 blocks, and a quarter of it for
/// both in large frames, unless large blocks are favoured. A coarser quantizer
/// never lowers them.
pub proof fn law_thresholds_follow_the_quantizer(
    f: VbpFrame,
    src: Seq<u16>,
    base: int,
    stride: int,
    mi_row: int,
    mi_col: int,
    prune: bool,
)
    requires
        f.ac_quant >= 0,
        !f.sf.force_large_partition_blocks_intra,
    ensures
        ({
            let cx = sb_context(f, src, base, stride, mi_row, mi_col, prune);
            let steps = 120 * f.ac_quant;
            if f.num_pixels < 1280 * 720 {
                &&& 3 * cx.threshold_32 <= steps < 3 * cx.threshold_32 + 3
                &&& 2 * cx.threshold_16 <= steps < 2 * cx.threshold_16 + 2
            } else {
                &&& 4 * cx.threshold_32 <= steps < 4 * cx.threshold_32 + 4
                &&& cx.threshold_16 == cx.threshold_32
            }
        }),
{
    let b = 120 * f.ac_quant * f.sf.scale();
    assert(b == 120 * f.ac_quant) by (nonlinear_arith)
        requires
            b == 120 * f.ac_quant * f.sf.scale(),
            f.sf.scale() == 1,
    ;
}

/// A block size that chroma can follow: none of half width where chroma is
/// halved across alone, and none of half height where it is halved down alone.
pub open spec fn suits_chroma(f: VbpFrame, bsize: int) -> bool {
    &&& !(f.ss_x == 1 && f.ss_y == 0 && (bsize == 4 || bsize == 7))
    &&& !(f.ss_x == 0 && f.ss_y == 1 && (bsize == 5 || bsize == 8))
}

/// `t` is `s` with sizes that chroma can follow written over some of its cells.
pub open spec fn fits_chroma(f: VbpFrame, s: Seq<u8>, t: Seq<u8>) -> bool {
    &&& t.len() == s.len()
    &&& forall|k: int|
        0 <= k < s.len() ==> #[trigger] t[k] == s[k] || suits_chroma(f, t[k] as int)
}

proof fn lemma_fits_stamp(s: Seq<u8>, t: Seq<u8>, f: VbpFrame, r: int, c: int, bsize: int)
    requires
        fits_chroma(f, s, t),
        3 <= bsize <= 9,
        suits_chroma(f, bsize),
        s.len() == f.mi_rows * f.mi_cols,
        0 <= r,
        0 <= c,
    ensures
        fits_chroma(f, s, stamp(t, f, r, c, bsize)),
{
    let after = stamp(t, f, r, c, bsize);
    if r < f.mi_rows && c < f.mi_cols {
        lemma_cell(f.mi_rows as int, f.mi_cols as int, r, c);
    }
    assert forall|k: int| 0 <= k < s.len() implies #[trigger] after[k] == s[k] || suits_chroma(
        f,
        after[k] as int,
    ) by {
        assert(t[k] == s[k] || suits_chroma(f, t[k] as int));
    }
}

proof fn lemma_fits_vt(
    s: Seq<u8>,
    t: Seq<u8>,
    f: VbpFrame,
    choice: VtChoice,
    bsize: int,
    r: int,
    c: int,
)
    requires
        fits_chroma(f, s, t),
        bsize == BLOCK_16X16 || bsize == BLOCK_32X32,
        choice == VtChoice::Columns ==> !(f.ss_x == 1 && f.ss_y == 0),
        choice == VtChoice::Rows ==> !(f.ss_x == 0 && f.ss_y == 1),
        s.len() == f.mi_rows * f.mi_cols,
        0 <= r,
        0 <= c,
    ensures
        fits_chroma(f, s, vt_stamp(t, f, choice, bsize, r, c)),
{
    let half = MI_SIZE_WIDE_B[bsize] as int / 2;
    match choice {
        VtChoice::Descend => {},
        VtChoice::Whole => {
            lemma_fits_stamp(s, t, f, r, c, bsize);
        },
        VtChoice::Columns => {
            lemma_fits_stamp(s, t, f, r, c, bsize - 2);
            lemma_fits_stamp(s, stamp(t, f, r, c, bsize - 2), f, r, c + half, bsize - 2);
        },
        VtChoice::Rows => {
            lemma_fits_stamp(s, t, f, r, c, bsize - 1);
            lemma_fits_stamp(s, stamp(t, f, r, c, bsize - 1), f, r + half, c, bsize - 1);
        },
    }
}

impl SbContext {
    proof fn lemma_fits_8(self, s: Seq<u8>, t: Seq<u8>, x: int, y: int)
        requires
            self.placed(s),
            fits_chroma(self.f, s, t),
            0 <= x,
            0 <= y,
        ensures
            fits_chroma(self.f, s, self.stamp_8(t, x, y)),
    {
        lemma_fits_stamp(s, t, self.f, self.row(y), self.col(x), BLOCK_8X8 as int);
    }

    proof fn lemma_fits_16(self, s: Seq<u8>, t: Seq<u8>, x: int, y: int)
        requires
            self.placed(s),
            fits_chroma(self.f, s, t),
            0 <= x,
            0 <= y,
        ensures
            fits_chroma(self.f, s, self.stamp_16(t, x, y)),
    {
        reveal(SbContext::stamp_16);
        lemma_fits_vt(
            s,
            t,
            self.f,
            self.choice(x, y, 2),
            BLOCK_16X16 as int,
            self.row(y),
            self.col(x),
        );
        self.lemma_fits_8(s, t, x, y);
        let t1 = self.stamp_8(t, x, y);
        self.lemma_fits_8(s, t1, x + 8, y);
        let t2 = self.stamp_8(t1, x + 8, y);
        self.lemma_fits_8(s, t2, x, y + 8);
        let t3 = self.stamp_8(t2, x, y + 8);
        self.lemma_fits_8(s, t3, x + 8, y + 8);
    }

    proof fn lemma_fits_32(self, s: Seq<u8>, t: Seq<u8>, x: int, y: int)
        requires
            self.placed(s),
            fits_chroma(self.f, s, t),
            0 <= x,
            0 <= y,
        ensures
            fits_chroma(self.f, s, self.stamp_32(t, x, y)),
    {
        reveal(SbContext::stamp_32);
        lemma_fits_vt(
            s,
            t,
            self.f,
            self.choice(x, y, 3),
            BLOCK_32X32 as int,
            self.row(y),
            self.col(x),
        );
        self.lemma_fits_16(s, t, x, y);
        let t1 = self.stamp_16(t, x, y);
        self.lemma_fits_16(s, t1, x + 16, y);
        let t2 = self.stamp_16(t1, x + 16, y);
        self.lemma_fits_16(s, t2, x, y + 16);
        let t3 = self.stamp_16(t2, x, y + 16);
        self.lemma_fits_16(s, t3, x + 16, y + 16);
    }

    proof fn lemma_fits_64(self, s: Seq<u8>, t: Seq<u8>, x: int, y: int)
        requires
            self.placed(s),
            fits_chroma(self.f, s, t),
            0 <= x,
            0 <= y,
        ensures
            fits_chroma(self.f, s, self.stamp_64(t, x, y)),
    {
        self.lemma_fits_32(s, t, x, y);
        let t1 = self.stamp_32(t, x, y);
        self.lemma_fits_32(s, t1, x + 32, y);
        let t2 = self.stamp_32(t1, x + 32, y);
        self.lemma_fits_32(s, t2, x, y + 32);
        let t3 = self.stamp_32(t2, x, y + 32);
        self.lemma_fits_32(s, t3, x + 32, y + 32);
    }

    /// The partition of a superblock writes no size that chroma cannot follow.
    pub proof fn law_partition_suits_chroma(self, s: Seq<u8>)
        requires
            self.placed(s),
        ensures
            fits_chroma(self.f, s, self.stamp_sb(s)),
    {
        self.lemma_fits_64(s, s, 0, 0);
        let t1 = self.stamp_64(s, 0, 0);
        self.lemma_fits_64(s, t1, 64, 0);
        let t2 = self.stamp_64(t1, 64, 0);
        self.lemma_fits_64(s, t2, 0, 64);
        let t3 = self.stamp_64(t2, 0, 64);
        self.lemma_fits_64(s, t3, 64, 64);
    }

    /// A smooth 32x32 block of which the right edge of the tile leaves the left
    /// half is cut in two from top to bottom, where both halves are smooth and
    /// chroma allows it.
    pub proof fn law_block_cut_by_the_right_edge_is_halved(self, s: Seq<u8>, x: int, y: int)
        requires
            self.placed(s),
            self.in_sb(x, 32) && self.in_sb(y, 32),
            self.mi_col + x / 4 + 4 == self.f.tile_mi_col_end,
            self.f.tile_mi_col_end <= self.f.mi_cols,
            self.mi_row + y / 4 + 8 <= self.f.tile_mi_row_end <= self.f.mi_rows,
            self.g.variance(x, y, 3) <= self.threshold_32,
            self.g.variance(x, y, 2) <= self.threshold_16,
            self.g.variance(x + 16, y, 2) <= self.threshold_16,
            self.g.variance(x, y + 16, 2) <= self.threshold_16,
            self.g.variance(x + 16, y + 16, 2) <= self.threshold_16,
            self.g.vert_variance(x, y, 3, false) < self.threshold_32,
            self.g.vert_variance(x, y, 3, true) < self.threshold_32,
            !(self.f.ss_x == 1 && self.f.ss_y == 0),
        ensures
            self.stamp_sb(s)[(self.mi_row + y / 4) * self.f.mi_cols + self.mi_col + x / 4] == 7,
    {
        lemma_variance_nonneg(self.g.sse(x, y, 3), self.g.sum(x, y, 3), 6);
        assert(self.choice(x, y, 3) == VtChoice::Columns);
        let (rr, cc) = (self.row(y), self.col(x));
        let t = self.lemma_cell_of_32(s, x, y, rr, cc);
        self.lemma_stamp_32(t, x, y, rr, cc);
    }

    /// The same of the bottom edge, which cuts the block from left to right.
    pub proof fn law_block_cut_by_the_bottom_edge_is_halved(self, s: Seq<u8>, x: int, y: int)
        requires
            self.placed(s),
            self.in_sb(x, 32) && self.in_sb(y, 32),
            self.mi_row + y / 4 + 4 == self.f.tile_mi_row_end,
            self.f.tile_mi_row_end <= self.f.mi_rows,
            self.mi_col + x / 4 + 8 <= self.f.tile_mi_col_end <= self.f.mi_cols,
            self.g.variance(x, y, 3) <= self.threshold_32,
            self.g.variance(x, y, 2) <= self.threshold_16,
            self.g.variance(x + 16, y, 2) <= self.threshold_16,
            self.g.variance(x, y + 16, 2) <= self.threshold_16,
            self.g.variance(x + 16, y + 16, 2) <= self.threshold_16,
            self.g.horz_variance(x, y, 3, false) < self.threshold_32,
            self.g.horz_variance(x, y, 3, true) < self.threshold_32,
            !(self.f.ss_x == 0 && self.f.ss_y == 1),
        ensures
            self.stamp_sb(s)[(self.mi_row + y / 4) * self.f.mi_cols + self.mi_col + x / 4] == 8,
    {
        lemma_variance_nonneg(self.g.sse(x, y, 3), self.g.sum(x, y, 3), 6);
        assert(self.choice(x, y, 3) == VtChoice::Rows);
        let (rr, cc) = (self.row(y), self.col(x));
        let t = self.lemma_cell_of_32(s, x, y, rr, cc);
        self.lemma_stamp_32(t, x, y, rr, cc);
    }
}

impl SbSource {
    /// The halves of a square are its columns and its rows: a 4x4 group of the
    /// other half does not count.
    pub proof fn law_halves_read_their_own_groups(
        self,
        o: SbSource,
        x: int,
        y: int,
        level: int,
        u: int,
        v: int,
    )
        requires
            1 <= level <= 3,
            x % 4 == 0 && y % 4 == 0 && u % 4 == 0 && v % 4 == 0,
            forall|i: int, j: int|
                (i != u || j != v) ==> #[trigger] self.leaf(i, j) == o.leaf(i, j),
        ensures
            u >= x + 2 * pow2i(level) ==> self.vert_variance(x, y, level, false)
                == o.vert_variance(x, y, level, false),
            u < x + 2 * pow2i(level) ==> self.vert_variance(x, y, level, true) == o.vert_variance(
                x,
                y,
                level,
                true,
            ),
            v >= y + 2 * pow2i(level) ==> self.horz_variance(x, y, level, false)
                == o.horz_variance(x, y, level, false),
            v < y + 2 * pow2i(level) ==> self.horz_variance(x, y, level, true) == o.horz_variance(
                x,
                y,
                level,
                true,
            ),
    {
        let l = level - 1;
        let h = 4 * pow2i(l);
        lemma_pow2i_pos(l);
        assert(2 * pow2i(level) == h);
        self.law_each_group_counts_once(o, x, y, l, u, v);
        self.law_each_group_counts_once(o, x + h, y, l, u, v);
        self.law_each_group_counts_once(o, x, y + h, l, u, v);
        self.law_each_group_counts_once(o, x + h, y + h, l, u, v);
    }
}

} // verus!
