//! Temporal filtering: blending the neighbours of a frame into it, sample by
//! sample, with weights that fall with the difference.
//!
//! The weight of a sample is modelled in floating point and enters as a
//! function.

use vstd::prelude::*;

use crate::arith::{max_int, min_int, pow2i, shr_i64};
use crate::samples::abs_int;

verus! {

/// Gradient from which a sample is taken for an edge.
pub const NOISE_ESTIMATION_EDGE_THRESHOLD: i32 = 50;

/// Side of the window whose differences a weight goes by.
pub const TF_WINDOW_LENGTH: i32 = 5;

/// Number of 16x16 blocks in a filter block.
pub const NUM_16X16: usize = 16;

/// Weight of an identical sample.
pub const TF_WEIGHT_SCALE: i32 = 1000;

/// Weight of the window error against the block error.
pub const TF_WINDOW_BLOCK_BALANCE_WEIGHT: i32 = 5;

/// Quantizer below which weights decay.
pub const TF_Q_DECAY_THRESHOLD: i32 = 20;

/// Divisor of the combined error.
pub const TF_SEARCH_ERROR_NORM_WEIGHT: i32 = 20;

/// Strength below which weights decay.
pub const TF_STRENGTH_THRESHOLD: i32 = 4;

/// Quantizer from which weights grow.
pub const TF_QINDEX_CUTOFF: i32 = 128;

/// Side of a filter block.
pub const TF_BLOCK_DIM: usize = 64;

/// A sample of either depth.
pub trait TfPixel: Copy {
    /// The sample's value.
    spec fn level(self) -> int;

    /// The samples have more than eight bits.
    spec fn is_high() -> bool;

    fn high_bitdepth() -> (r: bool)
        ensures
            r == Self::is_high(),
    ;

    fn value(self) -> (r: u32)
        ensures
            r == self.level(),
            r <= 0xffff,
    ;
}

impl TfPixel for u8 {
    open spec fn level(self) -> int {
        self as int
    }

    open spec fn is_high() -> bool {
        false
    }

    fn high_bitdepth() -> (r: bool) {
        false
    }

    fn value(self) -> (r: u32) {
        self as u32
    }
}

impl TfPixel for u16 {
    open spec fn level(self) -> int {
        self as int
    }

    open spec fn is_high() -> bool {
        true
    }

    fn high_bitdepth() -> (r: bool) {
        true
    }

    fn value(self) -> (r: u32) {
        self as u32
    }
}

/// Squared difference of two samples.
pub open spec fn square_diff_of<P: TfPixel>(a: P, b: P) -> int {
    (a.level() - b.level()) * (a.level() - b.level())
}

/// The value in row `y` and column `x` of rows `stride` apart.
pub open spec fn at<T>(s: Seq<T>, stride: int, y: int, x: int) -> T {
    s[y * stride + x]
}

/// Where row `y` of a block of `width` samples ends.
pub open spec fn row_end(stride: int, width: int, y: int) -> int {
    y * stride + width
}

/// A block of `height` rows of `width` samples, `stride` apart, lies in a
/// buffer of `len` samples.
pub open spec fn block_fits(len: int, stride: int, height: int, width: int) -> bool {
    forall|y: int| 0 <= y < height ==> #[trigger] row_end(stride, width, y) <= len
}

/// The squared differences of the first `height` rows of two blocks are in
/// `out`, and nothing else of it is changed.
pub open spec fn holds_square_diff<P: TfPixel>(
    reference: Seq<P>,
    ref_stride: int,
    target: Seq<P>,
    tgt_stride: int,
    height: int,
    width: int,
    before: Seq<u32>,
    out: Seq<u32>,
) -> bool {
    &&& out.len() == before.len()
    &&& forall|y: int, x: int|
        0 <= y < height && 0 <= x < width ==> #[trigger] at(out, width, y, x) == square_diff_of(
            at(reference, ref_stride, y, x),
            at(target, tgt_stride, y, x),
        )
    &&& forall|k: int| height * width <= k < out.len() ==> #[trigger] out[k] == before[k]
}

/// Cells of different rows or columns are different.
pub proof fn lemma_cells_apart(width: int, y: int, x: int, v: int, u: int)
    requires
        0 <= x < width,
        0 <= u < width,
        0 <= y,
        0 <= v,
    ensures
        y * width + x == v * width + u <==> y == v && x == u,
        y < v ==> y * width + x < v * width,
        0 <= y * width,
{
    assert(0 <= y * width) by (nonlinear_arith)
        requires
            0 <= y,
            0 < width,
    ;
    if y < v {
        assert(y * width + width <= v * width) by (nonlinear_arith)
            requires
                y + 1 <= v,
                0 < width,
        ;
    } else if v < y {
        assert(v * width + width <= y * width) by (nonlinear_arith)
            requires
                v + 1 <= y,
                0 < width,
        ;
    }
}

/// Squared differences of two blocks, row by row.
pub fn compute_square_diff<P: TfPixel>(
    reference: &[P],
    ref_stride: usize,
    target: &[P],
    tgt_stride: usize,
    height: usize,
    width: usize,
    square_diff: &mut [u32],
)
    requires
        block_fits(reference.len() as int, ref_stride as int, height as int, width as int),
        block_fits(target.len() as int, tgt_stride as int, height as int, width as int),
        height * width <= old(square_diff).len(),
    ensures
        holds_square_diff(
            reference@,
            ref_stride as int,
            target@,
            tgt_stride as int,
            height as int,
            width as int,
            old(square_diff)@,
            final(square_diff)@,
        ),
{
    let ghost before = square_diff@;
    let ghost (rs, ts, w) = (ref_stride as int, tgt_stride as int, width as int);
    assert(0 * w == 0) by (nonlinear_arith);
    for i in 0..height
        invariant
            rs == ref_stride,
            ts == tgt_stride,
            w == width,
            block_fits(reference.len() as int, rs, height as int, w),
            block_fits(target.len() as int, ts, height as int, w),
            height * width <= square_diff.len(),
            holds_square_diff(reference@, rs, target@, ts, i as int, w, before, square_diff@),
    {
        proof {
            assert(row_end(rs, w, i as int) <= reference.len());
            assert(row_end(ts, w, i as int) <= target.len());
            assert((i + 1) * w == i * w + w) by (nonlinear_arith);
            assert((i + 1) * w <= height * w) by (nonlinear_arith)
                requires
                    i + 1 <= height,
                    w >= 0,
            ;
            assert(0 <= i * rs && 0 <= i * ts && 0 <= i * w) by (nonlinear_arith)
                requires
                    0 <= i,
                    0 <= rs,
                    0 <= ts,
                    0 <= w,
            ;
        }
        let ref_row: usize = i * ref_stride;
        let tgt_row: usize = i * tgt_stride;
        let out_row: usize = i * width;
        for j in 0..width
            invariant
                rs == ref_stride,
                ts == tgt_stride,
                w == width,
                ref_row == i * rs,
                tgt_row == i * ts,
                out_row == i * w,
                out_row + w <= square_diff.len(),
                ref_row + w <= reference.len(),
                tgt_row + w <= target.len(),
                square_diff.len() == before.len(),
                forall|y: int, x: int|
                    (0 <= y < i && 0 <= x < w) || (y == i && 0 <= x < j) ==> #[trigger] at(
                        square_diff@,
                        w,
                        y,
                        x,
                    ) == square_diff_of(at(reference@, rs, y, x), at(target@, ts, y, x)),
                forall|k: int|
                    out_row + j <= k < square_diff.len() ==> #[trigger] square_diff[k] == before[k],
        {
            let ghost sq0 = square_diff@;
            let r: u32 = reference[ref_row + j].value();
            let t: u32 = target[tgt_row + j].value();
            let diff: u32 = if r > t {
                r - t
            } else {
                t - r
            };
            proof {
                let d = at(reference@, rs, i as int, j as int).level() - at(
                    target@,
                    ts,
                    i as int,
                    j as int,
                ).level();
                assert(diff == d || diff == -d);
                assert(diff * diff == d * d) by (nonlinear_arith)
                    requires
                        diff == d || diff == -d,
                ;
                assert(0 <= diff * diff <= 0xffff * 0xffff) by (nonlinear_arith)
                    requires
                        0 <= diff <= 0xffff,
                ;
            }
            square_diff[out_row + j] = diff * diff;
            proof {
                assert forall|y: int, x: int|
                    (0 <= y < i && 0 <= x < w) || (y == i && 0 <= x < j + 1) implies #[trigger] at(
                    square_diff@,
                    w,
                    y,
                    x,
                ) == square_diff_of(at(reference@, rs, y, x), at(target@, ts, y, x)) by {
                    lemma_cells_apart(w, y, x, i as int, j as int);
                    if y != i || x != j {
                        assert(at(sq0, w, y, x) == at(square_diff@, w, y, x));
                    }
                }
            }
        }
    }
}

/// A value modulo 2^32.
pub open spec fn wrap32(x: int) -> int {
    x % 0x1_0000_0000
}

/// Sum of the luma differences that the chroma sample in row `y` and column
/// `x` covers, in a plane of `block_width` chroma samples to a row.
pub open spec fn covered_luma(
    sq: Seq<u32>,
    block_width: int,
    ss_x: int,
    ss_y: int,
    y: int,
    x: int,
) -> int {
    let ww = block_width * pow2i(ss_x);
    crate::samples::block_total(
        |k: int| sq[k] as int,
        y * pow2i(ss_y) * ww + x * pow2i(ss_x),
        ww,
        pow2i(ss_x),
        pow2i(ss_y),
    )
}

fn add_row(sq: &[u32], sum: u32, start: usize, n: usize, Ghost(total): Ghost<int>) -> (r: u32)
    requires
        start + n <= sq.len(),
        sum == wrap32(total),
    ensures
        r == wrap32(
            total + crate::samples::row_total(|k: int| sq@[k] as int, start as int, n as int),
        ),
{
    let ghost p = |k: int| sq@[k] as int;
    let mut s: u32 = sum;
    for j in 0..n
        invariant
            start + n <= sq.len(),
            p == (|k: int| sq@[k] as int),
            s == wrap32(total + crate::samples::row_total(p, start as int, j as int)),
    {
        assert(p(start + j) == sq@[start + j]);
        s = s.wrapping_add(sq[start + j]);
    }
    s
}

/// Two to the `n`.
fn pow2_usize(n: u32) -> (r: usize)
    requires
        n < 31,
    ensures
        r == pow2i(n as int),
        r >= 1,
{
    crate::tpl_model::pow2_of(n as u8) as usize
}

/// Add to each chroma sample's cell the luma differences that it covers, in
/// wrapping arithmetic.
#[verifier::spinoff_prover]
pub fn compute_luma_sq_error_sum(
    square_diff: &[u32],
    luma_sse_sum: &mut [u32],
    block_height: usize,
    block_width: usize,
    ss_x_shift: u32,
    ss_y_shift: u32,
)
    requires
        ss_x_shift < 31,
        ss_y_shift < 31,
        block_width * pow2i(ss_x_shift as int) <= usize::MAX,
        block_height * pow2i(ss_y_shift as int) * (block_width * pow2i(ss_x_shift as int))
            <= square_diff.len(),
        block_height * block_width <= old(luma_sse_sum).len(),
    ensures
        final(luma_sse_sum).len() == old(luma_sse_sum).len(),
        forall|y: int, x: int|
            0 <= y < block_height && 0 <= x < block_width ==> #[trigger] at(
                final(luma_sse_sum)@,
                block_width as int,
                y,
                x,
            ) == wrap32(
                at(old(luma_sse_sum)@, block_width as int, y, x) + covered_luma(
                    square_diff@,
                    block_width as int,
                    ss_x_shift as int,
                    ss_y_shift as int,
                    y,
                    x,
                ),
            ),
        forall|k: int|
            block_height * block_width <= k < final(luma_sse_sum).len()
                ==> #[trigger] final(luma_sse_sum)[k] == old(luma_sse_sum)[k],
{
    let ghost before = luma_sse_sum@;
    let ghost (sx, sy, w, h) = (
        ss_x_shift as int,
        ss_y_shift as int,
        block_width as int,
        block_height as int,
    );
    let px: usize = pow2_usize(ss_x_shift);
    let py: usize = pow2_usize(ss_y_shift);
    let ww: usize = block_width * px;
    let ghost sq = square_diff@;
    let ghost p = |k: int| sq[k] as int;
    assert(0 * w == 0) by (nonlinear_arith);
    for i in 0..block_height
        invariant
            w == block_width,
            h == block_height,
            px == pow2i(sx),
            py == pow2i(sy),
            px >= 1,
            py >= 1,
            ww == w * px,
            h * py * ww <= square_diff.len(),
            sq == square_diff@,
            p == (|k: int| sq[k] as int),
            h * w <= luma_sse_sum.len(),
            luma_sse_sum.len() == before.len(),
            forall|y: int, x: int|
                0 <= y < i && 0 <= x < w ==> #[trigger] at(luma_sse_sum@, w, y, x) == wrap32(
                    at(before, w, y, x) + covered_luma(sq, w, sx, sy, y, x),
                ),
            forall|k: int|
                i * w <= k < luma_sse_sum.len() ==> #[trigger] luma_sse_sum[k] == before[k],
    {
        proof {
            assert((i + 1) * w == i * w + w) by (nonlinear_arith);
            assert((i + 1) * w <= h * w) by (nonlinear_arith)
                requires
                    i + 1 <= h,
                    w >= 0,
            ;
            assert(0 <= i * w) by (nonlinear_arith)
                requires
                    0 <= i,
                    0 <= w,
            ;
        }
        for j in 0..block_width
            invariant
                w == block_width,
                h == block_height,
                i < h,
                px == pow2i(sx),
                py == pow2i(sy),
                px >= 1,
                py >= 1,
                ww == w * px,
                h * py * ww <= square_diff.len(),
                sq == square_diff@,
                p == (|k: int| sq[k] as int),
                i * w + w <= luma_sse_sum.len(),
                0 <= i * w,
                luma_sse_sum.len() == before.len(),
                forall|y: int, x: int|
                    (0 <= y < i && 0 <= x < w) || (y == i && 0 <= x < j) ==> #[trigger] at(
                        luma_sse_sum@,
                        w,
                        y,
                        x,
                    ) == wrap32(at(before, w, y, x) + covered_luma(sq, w, sx, sy, y, x)),
                forall|k: int|
                    i * w + j <= k < luma_sse_sum.len() ==> #[trigger] luma_sse_sum[k] == before[k],
        {
            let ghost sum0 = luma_sse_sum@;
            let ghost off = i * py * ww + j * px;
            proof {
                assert(0 <= j * px && j * px + px <= ww) by (nonlinear_arith)
                    requires
                        0 <= j,
                        j + 1 <= w,
                        ww == w * px,
                        px >= 1,
                ;
                assert(0 <= i * py && (i + 1) * py <= h * py) by (nonlinear_arith)
                    requires
                        0 <= i,
                        i + 1 <= h,
                        py >= 1,
                ;
                assert((i + 1) * py == i * py + py) by (nonlinear_arith);
            }
            let mut sum: u32 = 0;
            for ii in 0..py
                invariant
                    w == block_width,
                    i < h,
                    i + 1 <= block_height,
                    px >= 1,
                    px == pow2i(sx),
                    py == pow2i(sy),
                    ww == w * px,
                    h * py * ww <= square_diff.len(),
                    0 <= i * py,
                    i * py + py <= h * py,
                    0 <= j * px,
                    j * px + px <= ww,
                    sq == square_diff@,
                    p == (|k: int| sq[k] as int),
                    off == i * py * ww + j * px,
                    sum == wrap32(
                        crate::samples::block_total(p, off, ww as int, px as int, ii as int),
                    ),
            {
                let ghost yy = i * py + ii;
                proof {
                    assert(0 <= yy * ww && yy * ww + ww <= h * py * ww) by (nonlinear_arith)
                        requires
                            0 <= yy,
                            yy + 1 <= h * py,
                            0 <= ww,
                    ;
                    assert(yy * ww == i * py * ww + ii * ww) by (nonlinear_arith)
                        requires
                            yy == i * py + ii,
                    ;
                    assert(i * py <= yy * ww || ww == 0) by (nonlinear_arith)
                        requires
                            yy >= i * py,
                            i * py >= 0,
                            ww >= 0,
                    ;
                    assert(ww >= 1) by (nonlinear_arith)
                        requires
                            j * px + px <= ww,
                            j * px >= 0,
                            px >= 1,
                    ;
                    assert(yy <= yy * ww) by (nonlinear_arith)
                        requires
                            yy >= 0,
                            ww >= 1,
                    ;
                }
                let y: usize = i * py + ii;
                let start: usize = y * ww + j * px;
                sum = add_row(
                    square_diff,
                    sum,
                    start,
                    px,
                    Ghost(crate::samples::block_total(p, off, ww as int, px as int, ii as int)),
                );
                assert(off + ii * ww == start);
            }
            assert(crate::samples::block_total(p, off, ww as int, px as int, py as int)
                == covered_luma(sq, w, sx, sy, i as int, j as int));
            let k: usize = i * block_width + j;
            luma_sse_sum[k] = luma_sse_sum[k].wrapping_add(sum);
            proof {
                assert forall|y: int, x: int|
                    (0 <= y < i && 0 <= x < w) || (y == i && 0 <= x < j + 1) implies #[trigger] at(
                    luma_sse_sum@,
                    w,
                    y,
                    x,
                ) == wrap32(at(before, w, y, x) + covered_luma(sq, w, sx, sy, y, x)) by {
                    lemma_cells_apart(w, y, x, i as int, j as int);
                    if y != i || x != j {
                        assert(at(sum0, w, y, x) == at(luma_sse_sum@, w, y, x));
                    } else {
                        assert(at(before, w, y, x) == before[k as int]);
                    }
                }
            }
        }
    }
}

/// `v / 2^n`, to nearest.
pub open spec fn round_shift(v: int, n: int) -> int {
    (v + pow2i(n) / 2) / pow2i(n)
}

fn round_power_of_two(value: i32, n: u32) -> (r: i32)
    requires
        0 <= value <= 0x100_0000,
        n < 30,
    ensures
        r == round_shift(value as int, n as int),
        0 <= r <= value + 1,
{
    let half: i64 = (crate::tpl_model::pow2_of(n as u8) / 2) as i64;
    proof {
        crate::arith::lemma_pow2i_mono(n as int, 30);
        assert(pow2i(30) == 0x4000_0000) by {
            reveal_with_fuel(pow2i, 31);
        }
        let p = pow2i(n as int);
        let v = value as int;
        assert(0 <= (v + p / 2) / p <= v + 1) by (nonlinear_arith)
            requires
                p >= 1,
                v >= 0,
        ;
    }
    shr_i64(value as i64 + half, n) as i32
}

/// The sample `dy` rows and `dx` columns from a position.
pub open spec fn near<P: TfPixel>(src: Seq<P>, stride: int, y: int, x: int, dy: int, dx: int) -> int {
    at(src, stride, y + dy, x + dx).level()
}

/// Sum of the magnitudes of the two Sobel gradients at a position.
pub open spec fn gradient<P: TfPixel>(s: Seq<P>, stride: int, y: int, x: int) -> int {
    abs_int(
        (near(s, stride, y, x, -1, -1) - near(s, stride, y, x, -1, 1)) + (near(s, stride, y, x, 1, -1)
            - near(s, stride, y, x, 1, 1)) + 2 * (near(s, stride, y, x, 0, -1) - near(
            s,
            stride,
            y,
            x,
            0,
            1,
        )),
    ) + abs_int(
        (near(s, stride, y, x, -1, -1) - near(s, stride, y, x, 1, -1)) + (near(s, stride, y, x, -1, 1)
            - near(s, stride, y, x, 1, 1)) + 2 * (near(s, stride, y, x, -1, 0) - near(
            s,
            stride,
            y,
            x,
            1,
            0,
        )),
    )
}

/// Magnitude of the Laplacian at a position.
pub open spec fn laplacian<P: TfPixel>(s: Seq<P>, stride: int, y: int, x: int) -> int {
    abs_int(
        4 * near(s, stride, y, x, 0, 0) - 2 * (near(s, stride, y, x, -1, 0) + near(
            s,
            stride,
            y,
            x,
            1,
            0,
        ) + near(s, stride, y, x, 0, -1) + near(s, stride, y, x, 0, 1)) + (near(
            s,
            stride,
            y,
            x,
            -1,
            -1,
        ) + near(s, stride, y, x, -1, 1) + near(s, stride, y, x, 1, -1) + near(
            s,
            stride,
            y,
            x,
            1,
            1,
        )),
    )
}

/// Laplacian and number of the smooth samples of a plane.
pub struct NoiseSums {
    pub accum: i64,
    pub count: i64,
}

/// The plane that noise is estimated on.
pub struct NoiseCase<P> {
    pub src: Seq<P>,
    pub stride: int,
    pub shift: int,
    pub edge_thresh: int,
}

impl<P: TfPixel> NoiseCase<P> {
    /// A sample is smooth: its gradient stays below the threshold.
    pub open spec fn is_smooth(self, y: int, x: int) -> bool {
        round_shift(gradient(self.src, self.stride, y, x), self.shift) < self.edge_thresh
    }

    /// Number of smooth samples among the first `n` of row `y` from column 1
    /// on.
    pub open spec fn row_count(self, y: int, n: int) -> int
        decreases n,
    {
        if n <= 0 {
            0
        } else {
            self.row_count(y, n - 1) + (if self.is_smooth(y, n) {
                1int
            } else {
                0
            })
        }
    }

    /// Sum of their Laplacians.
    pub open spec fn row_sum(self, y: int, n: int) -> int
        decreases n,
    {
        if n <= 0 {
            0
        } else {
            self.row_sum(y, n - 1) + (if self.is_smooth(y, n) {
                round_shift(laplacian(self.src, self.stride, y, n), self.shift)
            } else {
                0
            })
        }
    }

    /// The same over the first `m` rows from row 1 on.
    pub open spec fn count(self, m: int, n: int) -> int
        decreases m,
    {
        if m <= 0 {
            0
        } else {
            self.count(m - 1, n) + self.row_count(m, n)
        }
    }

    pub open spec fn sum(self, m: int, n: int) -> int
        decreases m,
    {
        if m <= 0 {
            0
        } else {
            self.sum(m - 1, n) + self.row_sum(m, n)
        }
    }
}

#[verifier::rlimit(50)]
fn sobel_and_laplacian<P: TfPixel>(src: &[P], stride: usize, y: usize, x: usize) -> (r: (i32, i32))
    requires
        y >= 1,
        x >= 1,
        row_end(stride as int, x as int + 2, y as int + 1) <= src.len(),
    ensures
        r.0 == gradient(src@, stride as int, y as int, x as int),
        r.1 == laplacian(src@, stride as int, y as int, x as int),
        0 <= r.0 <= 0x80_0000,
        0 <= r.1 <= 0x80_0000,
{
    let ghost st = stride as int;
    proof {
        assert((y + 1) * st == y * st + st && (y - 1) * st == y * st - st) by (nonlinear_arith);
        assert((y - 1) * st >= 0) by (nonlinear_arith)
            requires
                y >= 1,
                st >= 0,
        ;
    }
    let mid: usize = y * stride + x;
    let up: usize = mid - stride;
    let down: usize = mid + stride;
    let a: i32 = src[up - 1].value() as i32;
    let b: i32 = src[up].value() as i32;
    let c: i32 = src[up + 1].value() as i32;
    let d: i32 = src[mid - 1].value() as i32;
    let e: i32 = src[mid].value() as i32;
    let f: i32 = src[mid + 1].value() as i32;
    let g: i32 = src[down - 1].value() as i32;
    let h: i32 = src[down].value() as i32;
    let i: i32 = src[down + 1].value() as i32;
    let ghost (yy, xx) = (y as int, x as int);
    assert(a == near(src@, st, yy, xx, -1, -1) && b == near(src@, st, yy, xx, -1, 0) && c == near(
        src@,
        st,
        yy,
        xx,
        -1,
        1,
    ));
    assert(d == near(src@, st, yy, xx, 0, -1) && e == near(src@, st, yy, xx, 0, 0) && f == near(
        src@,
        st,
        yy,
        xx,
        0,
        1,
    ));
    assert(g == near(src@, st, yy, xx, 1, -1) && h == near(src@, st, yy, xx, 1, 0) && i == near(
        src@,
        st,
        yy,
        xx,
        1,
        1,
    ));
    let gx: i32 = (a - c) + (g - i) + 2 * (d - f);
    let gy: i32 = (a - g) + (c - i) + 2 * (b - h);
    let v: i32 = 4 * e - 2 * (b + h + d + f) + (a + c + g + i);
    let ax: i32 = if gx < 0 {
        -gx
    } else {
        gx
    };
    let ay: i32 = if gy < 0 {
        -gy
    } else {
        gy
    };
    let av: i32 = if v < 0 {
        -v
    } else {
        v
    };
    (ax + ay, av)
}

/// What the noise of a plane is estimated from: the Laplacians of its smooth
/// samples and their number. None where there are fewer than sixteen.
pub fn estimate_noise_sums<P: TfPixel>(
    src: &[P],
    height: usize,
    width: usize,
    stride: usize,
    shift: u32,
    edge_thresh: i32,
) -> (r: Option<NoiseSums>)
    requires
        shift < 30,
        height * width <= 0x40_0000_0000,
        height >= 3 && width >= 3 ==> block_fits(
            src.len() as int,
            stride as int,
            height as int,
            width as int,
        ),
    ensures
        ({
            let case = NoiseCase {
                src: src@,
                stride: stride as int,
                shift: shift as int,
                edge_thresh: edge_thresh as int,
            };
            let count = case.count(height - 2, width - 2);
            match r {
                None => height < 3 || width < 3 || count < 16,
                Some(s) => height >= 3 && width >= 3 && count >= 16 && s.count == count && s.accum
                    == case.sum(height - 2, width - 2),
            }
        }),
{
    if height < 3 || width < 3 {
        return None;
    }
    let ghost case = NoiseCase {
        src: src@,
        stride: stride as int,
        shift: shift as int,
        edge_thresh: edge_thresh as int,
    };
    let ghost (h, w) = (height as int, width as int);
    let mut accum: i64 = 0;
    let mut count: i64 = 0;
    for i in 1..height - 1
        invariant
            height >= 3,
            width >= 3,
            h == height,
            w == width,
            shift < 30,
            h * w <= 0x40_0000_0000,
            block_fits(src.len() as int, stride as int, h, w),
            case == (NoiseCase {
                src: src@,
                stride: stride as int,
                shift: shift as int,
                edge_thresh: edge_thresh as int,
            }),
            count == case.count(i - 1, w - 2),
            accum == case.sum(i - 1, w - 2),
            0 <= count <= (i - 1) * w,
            0 <= accum <= count * 0x80_0001,
    {
        proof {
            assert(i * w <= h * w) by (nonlinear_arith)
                requires
                    i <= h,
                    w >= 0,
            ;
            assert(i * w == (i - 1) * w + w) by (nonlinear_arith);
        }
        for j in 1..width - 1
            invariant
                height >= 3,
                width >= 3,
                1 <= i < height - 1,
                h == height,
                w == width,
                shift < 30,
                block_fits(src.len() as int, stride as int, h, w),
                case == (NoiseCase {
                    src: src@,
                    stride: stride as int,
                    shift: shift as int,
                    edge_thresh: edge_thresh as int,
                }),
                i * w <= 0x40_0000_0000,
                i * w == (i - 1) * w + w,
                count == case.count(i - 1, w - 2) + case.row_count(i as int, j - 1),
                accum == case.sum(i - 1, w - 2) + case.row_sum(i as int, j - 1),
                0 <= count <= (i - 1) * w + j - 1,
                0 <= accum <= count * 0x80_0001,
        {
            proof {
                assert(row_end(stride as int, w, i as int + 1) <= src.len());
            }
            let (g, l) = sobel_and_laplacian(src, stride, i, j);
            let ga: i32 = round_power_of_two(g, shift);
            if ga < edge_thresh {
                assert(case.is_smooth(i as int, j as int));
                accum = accum + round_power_of_two(l, shift) as i64;
                count = count + 1;
            }
        }
    }
    if count < 16 {
        None
    } else {
        Some(NoiseSums { accum, count })
    }
}

/// One plane of a frame.
#[derive(Clone, Copy, Debug)]
pub struct TfPlane<'a, P> {
    /// Samples from the plane's origin on.
    pub data: &'a [P],
    pub stride: usize,
    pub crop_width: usize,
    pub crop_height: usize,
}

/// The block that is filtered, and what weights go by.
#[derive(Clone, Debug)]
pub struct TfFilterParams {
    pub block_width: usize,
    pub block_height: usize,
    /// Position of the block, in blocks.
    pub mb_row: usize,
    pub mb_col: usize,
    /// Subsampling of each plane.
    pub subsampling_x: [u32; 3],
    pub subsampling_y: [u32; 3],
    /// Bits of a sample.
    pub bd: u32,
    pub q_factor: i32,
    pub filter_strength: i32,
    /// 0 for exact weights.
    pub wgt_calc_lvl: i32,
}

/// A model of the weights of a plane: defined for each of the sixteen blocks,
/// the same for the same arguments, and in range. The arguments are the plane,
/// the sum of squared differences, the number of samples it is a sum over, and
/// the 16x16 block.
pub open spec fn weighs_plane<W: Fn(usize, u64, i32, usize) -> i32>(f: W, plane: usize) -> bool {
    &&& forall|b: u64, c: i32, d: usize|
        d < NUM_16X16 ==> #[trigger] call_requires(f, (plane, b, c, d))
    &&& forall|b: u64, c: i32, d: usize, y: i32, z: i32|
        d < NUM_16X16 && #[trigger] call_ensures(f, (plane, b, c, d), y) && #[trigger] call_ensures(
            f,
            (plane, b, c, d),
            z,
        ) ==> y == z
    &&& forall|b: u64, c: i32, d: usize, y: i32|
        d < NUM_16X16 && #[trigger] call_ensures(f, (plane, b, c, d), y) ==> 0 <= y <= 0x7fff
}

/// A model of the weights of the first `n` planes.
pub open spec fn is_weight_model<W: Fn(usize, u64, i32, usize) -> i32>(f: W, n: int) -> bool {
    forall|plane: usize| plane < n ==> #[trigger] weighs_plane(f, plane)
}

/// What a weight model says.
pub open spec fn modelled_weight<W: Fn(usize, u64, i32, usize) -> i32>(
    f: W,
    plane: usize,
    sum: u64,
    num: i32,
    block: usize,
) -> i32 {
    choose|y: i32| #[trigger] call_ensures(f, (plane, sum, num, block), y)
}

/// A position within `0..n`.
pub open spec fn clamped(x: int, n: int) -> int {
    max_int(0, min_int(x, n - 1))
}

/// Sum over `n` columns of a row of the window around column `x`, from the
/// second column before it on, taking the nearest column where there is none.
pub open spec fn window_row_sum(sq: Seq<u32>, w: int, y: int, x: int, n: int) -> int
    decreases n,
{
    if n <= 0 {
        0
    } else {
        window_row_sum(sq, w, y, x, n - 1) + at(sq, w, y, clamped(x + n - 3, w))
    }
}

/// Sum over `m` rows of the window around a sample.
pub open spec fn window_sum(sq: Seq<u32>, h: int, w: int, y: int, x: int, m: int) -> int
    decreases m,
{
    if m <= 0 {
        0
    } else {
        window_sum(sq, h, w, y, x, m - 1) + window_row_sum(sq, w, clamped(y + m - 3, h), x, 5)
    }
}

fn sum_window(sq: &[u32], h: usize, w: usize, y: usize, x: usize) -> (r: u64)
    requires
        y < h,
        x < w,
        h * w <= sq.len(),
        h <= 0x7fff_ffff,
        w <= 0x7fff_ffff,
    ensures
        r == window_sum(sq@, h as int, w as int, y as int, x as int, 5),
        r <= 25 * 0xffff_ffff,
{
    let mut sum: u64 = 0;
    for m in 0usize..5
        invariant
            y < h,
            x < w,
            h * w <= sq.len(),
            h <= 0x7fff_ffff,
            w <= 0x7fff_ffff,
            sum == window_sum(sq@, h as int, w as int, y as int, x as int, m as int),
            sum <= 5 * m * 0xffff_ffff,
    {
        let yy: usize = if y + m < 2 {
            0
        } else if y + m - 2 >= h {
            h - 1
        } else {
            y + m - 2
        };
        assert(yy == clamped(y + m + 1 - 3, h as int));
        proof {
            let (a, b, c) = (yy as int, w as int, h as int);
            assert(0 <= a * b && a * b + b <= c * b) by (nonlinear_arith)
                requires
                    0 <= a,
                    a + 1 <= c,
                    0 <= b,
            ;
        }
        let ghost start = sum;
        for n in 0usize..5
            invariant
                y < h,
                x < w,
                yy < h,
                0 <= yy * w,
                yy * w + w <= h * w,
                h * w <= sq.len(),
                h <= 0x7fff_ffff,
                w <= 0x7fff_ffff,
                sum == start + window_row_sum(sq@, w as int, yy as int, x as int, n as int),
                start <= 20 * 0xffff_ffff,
                sum <= start + n * 0xffff_ffff,
        {
            let xx: usize = if x + n < 2 {
                0
            } else if x + n - 2 >= w {
                w - 1
            } else {
                x + n - 2
            };
            assert(xx == clamped(x + n + 1 - 3, w as int));
            assert(sq@[yy * w + xx] == at(sq@, w as int, yy as int, xx as int));
            sum = sum + sq[yy * w + xx] as u64;
        }
    }
    sum
}

/// The 16x16 block of a 64x64 block that a sample lies in, in a plane of
/// `h` by `w` samples to the block.
pub open spec fn subblock_of(h: int, w: int, y: int, x: int) -> int {
    ((y / (h / 2)) * 2 + x / (w / 2)) * 4 + (((y % (h / 2)) / (h / 4)) * 2 + (x % (w / 2)) / (w / 4))
}

/// A side of a plane that divides into four parts.
pub open spec fn is_quartered(n: int) -> bool {
    0 < n <= 0x7fff_ffff && n % 4 == 0
}

/// In a plane whose sides are multiples of four there are sixteen blocks.
pub proof fn law_sixteen_subblocks(h: int, w: int, y: int, x: int)
    requires
        h > 0,
        w > 0,
        h % 4 == 0,
        w % 4 == 0,
        0 <= y < h,
        0 <= x < w,
    ensures
        0 <= subblock_of(h, w, y, x) < 16,
{
    lemma_halves(h, y);
    lemma_halves(w, x);
}

proof fn lemma_halves(n: int, y: int)
    requires
        n > 0,
        n % 4 == 0,
        0 <= y < n,
    ensures
        0 <= y / (n / 2) <= 1,
        0 <= (y % (n / 2)) / (n / 4) <= 1,
{
    let half = n / 2;
    let quarter = n / 4;
    assert(half == 2 * quarter && n == 2 * half);
    assert(0 <= y / half <= 1) by (nonlinear_arith)
        requires
            0 <= y < 2 * half,
            half > 0,
    ;
    let r = y % half;
    assert(0 <= r < half) by (nonlinear_arith)
        requires
            r == y % half,
            half > 0,
    ;
    assert(0 <= r / quarter <= 1) by (nonlinear_arith)
        requires
            0 <= r < 2 * quarter,
            quarter > 0,
    ;
}

/// What a weight goes by: the differences of the window and of the luma
/// samples, scaled to eight bits.
pub open spec fn error_at(
    sq: Seq<u32>,
    luma: Seq<u32>,
    h: int,
    w: int,
    bd: int,
    y: int,
    x: int,
) -> int {
    let sum = window_sum(sq, h, w, y, x, 5) + at(luma, w, y, x);
    if bd > 8 {
        sum / pow2i(2 * (bd - 8))
    } else {
        sum
    }
}

/// The weight of a sample of a plane.
pub open spec fn weight_at<W: Fn(usize, u64, i32, usize) -> i32>(
    f: W,
    sq: Seq<u32>,
    luma: Seq<u32>,
    h: int,
    w: int,
    bd: int,
    plane: usize,
    num: i32,
    y: int,
    x: int,
) -> int {
    modelled_weight(
        f,
        plane,
        error_at(sq, luma, h, w, bd, y, x) as u64,
        num,
        subblock_of(h, w, y, x) as usize,
    ) as int
}

/// A sum of weighted samples and a sum of weights after one more sample.
pub open spec fn blended(accum: int, weight: int, level: int) -> int {
    wrap32(accum + weight * level)
}

pub open spec fn counted(count: int, weight: int) -> int {
    (count + weight) % 0x1_0000
}

/// The weight of one sample.
fn sample_weight<W: Fn(usize, u64, i32, usize) -> i32>(
    sq: &[u32],
    luma: &[u32],
    h: usize,
    w: usize,
    bd: u32,
    plane: usize,
    num_ref_pixels: i32,
    y: usize,
    x: usize,
    weight: &W,
) -> (r: i32)
    requires
        weighs_plane(*weight, plane),
        is_quartered(h as int),
        is_quartered(w as int),
        y < h,
        x < w,
        h * w <= sq.len(),
        h * w <= luma.len(),
        bd < 40,
    ensures
        r == weight_at(
            *weight,
            sq@,
            luma@,
            h as int,
            w as int,
            bd as int,
            plane,
            num_ref_pixels,
            y as int,
            x as int,
        ),
        0 <= r <= 0x7fff,
{
    proof {
        let (a, b, c) = (y as int, w as int, h as int);
        assert(0 <= a * b && a * b + b <= c * b) by (nonlinear_arith)
            requires
                0 <= a,
                a + 1 <= c,
                0 <= b,
        ;
        lemma_halves(h as int, y as int);
        lemma_halves(w as int, x as int);
        law_sixteen_subblocks(h as int, w as int, y as int, x as int);
    }
    let mut sum: u64 = sum_window(sq, h, w, y, x) + luma[y * w + x] as u64;
    if bd > 8 {
        let n: u32 = (bd - 8) * 2;
        assert(n < 64);
        sum = shr_i64(sum as i64, n) as u64;
    }
    let y32: usize = y / (h / 2);
    let x32: usize = x / (w / 2);
    let y16: usize = (y % (h / 2)) / (h / 4);
    let x16: usize = (x % (w / 2)) / (w / 4);
    let block: usize = (y32 * 2 + x32) * 4 + (y16 * 2 + x16);
    assert(block == subblock_of(h as int, w as int, y as int, x as int));
    assert(call_requires(*weight, (plane, sum, num_ref_pixels, block)));
    let r: i32 = weight(plane, sum, num_ref_pixels, block);
    assert(call_ensures(*weight, (plane, sum, num_ref_pixels, block), r));
    r
}

/// Blend a plane of the predictor into the sums.
#[verifier::spinoff_prover]
fn filter_plane<P: TfPixel, W: Fn(usize, u64, i32, usize) -> i32>(
    sq: &[u32],
    luma: &[u32],
    h: usize,
    w: usize,
    bd: u32,
    plane: usize,
    num_ref_pixels: i32,
    pred: &[P],
    start: usize,
    accum: &mut [u32],
    count: &mut [u16],
    weight: &W,
)
    requires
        weighs_plane(*weight, plane),
        h > 0 && w > 0 ==> is_quartered(h as int) && is_quartered(w as int),
        h * w <= sq.len(),
        h * w <= luma.len(),
        bd < 40,
        start + h * w <= pred.len(),
        start + h * w <= old(accum).len(),
        start + h * w <= old(count).len(),
    ensures
        final(accum).len() == old(accum).len(),
        final(count).len() == old(count).len(),
        forall|y: int, x: int|
            0 <= y < h && 0 <= x < w ==> {
                let k = start + y * w + x;
                let m = #[trigger] weight_at(
                    *weight,
                    sq@,
                    luma@,
                    h as int,
                    w as int,
                    bd as int,
                    plane,
                    num_ref_pixels,
                    y,
                    x,
                );
                &&& final(accum)[k] == blended(old(accum)[k] as int, m, pred[k].level())
                &&& final(count)[k] == counted(old(count)[k] as int, m)
            },
        forall|k: int|
            0 <= k < final(accum).len() && !(start <= k < start + h * w)
                ==> #[trigger] final(accum)[k] == old(accum)[k],
        forall|k: int|
            0 <= k < final(count).len() && !(start <= k < start + h * w)
                ==> #[trigger] final(count)[k] == old(count)[k],
{
    let ghost (a0, c0) = (accum@, count@);
    let ghost (hh, ww) = (h as int, w as int);
    for y in 0..h
        invariant
            hh == h,
            ww == w,
            weighs_plane(*weight, plane),
            h > 0 && w > 0 ==> is_quartered(h as int) && is_quartered(w as int),
            h * w <= sq.len(),
            h * w <= luma.len(),
            bd < 40,
            start + h * w <= pred.len(),
            start + h * w <= accum.len(),
            start + h * w <= count.len(),
            accum.len() == a0.len(),
            count.len() == c0.len(),
            forall|v: int, u: int|
                0 <= v < y && 0 <= u < ww ==> {
                    let k = start + v * ww + u;
                    let m = #[trigger] weight_at(
                        *weight,
                        sq@,
                        luma@,
                        hh,
                        ww,
                        bd as int,
                        plane,
                        num_ref_pixels,
                        v,
                        u,
                    );
                    &&& accum[k] == blended(a0[k] as int, m, pred[k].level())
                    &&& count[k] == counted(c0[k] as int, m)
                },
            forall|k: int|
                0 <= k < accum.len() && !(start <= k < start + y * ww) ==> #[trigger] accum[k]
                    == a0[k],
            forall|k: int|
                0 <= k < count.len() && !(start <= k < start + y * ww) ==> #[trigger] count[k]
                    == c0[k],
    {
        proof {
            assert(0 <= y * ww && y * ww + ww <= hh * ww) by (nonlinear_arith)
                requires
                    0 <= y,
                    y + 1 <= hh,
                    0 <= ww,
            ;
            assert((y + 1) * ww == y * ww + ww) by (nonlinear_arith);
        }
        for x in 0..w
            invariant
                hh == h,
                ww == w,
                y < h,
                weighs_plane(*weight, plane),
                h > 0 && w > 0 ==> is_quartered(h as int) && is_quartered(w as int),
                h * w <= sq.len(),
                h * w <= luma.len(),
                bd < 40,
                0 <= y * ww,
                y * ww + ww <= hh * ww,
                start + h * w <= pred.len(),
                start + h * w <= accum.len(),
                start + h * w <= count.len(),
                accum.len() == a0.len(),
                count.len() == c0.len(),
                forall|v: int, u: int|
                    (0 <= v < y && 0 <= u < ww) || (v == y && 0 <= u < x) ==> {
                        let k = start + v * ww + u;
                        let m = #[trigger] weight_at(
                            *weight,
                            sq@,
                            luma@,
                            hh,
                            ww,
                            bd as int,
                            plane,
                            num_ref_pixels,
                            v,
                            u,
                        );
                        &&& accum[k] == blended(a0[k] as int, m, pred[k].level())
                        &&& count[k] == counted(c0[k] as int, m)
                    },
                forall|k: int|
                    0 <= k < accum.len() && !(start <= k < start + y * ww + x)
                        ==> #[trigger] accum[k] == a0[k],
                forall|k: int|
                    0 <= k < count.len() && !(start <= k < start + y * ww + x)
                        ==> #[trigger] count[k] == c0[k],
        {
            let ghost (a1, c1) = (accum@, count@);
            let m: i32 = sample_weight(sq, luma, h, w, bd, plane, num_ref_pixels, y, x, weight);
            let k: usize = start + (y * w + x);
            let level: u32 = pred[k].value();
            proof {
                assert(0 <= m * level <= 0x7fff * 0xffff) by (nonlinear_arith)
                    requires
                        0 <= m <= 0x7fff,
                        0 <= level <= 0xffff,
                ;
            }
            accum[k] = accum[k].wrapping_add(m as u32 * level);
            count[k] = count[k].wrapping_add(m as u16);
            proof {
                assert forall|v: int, u: int|
                    (0 <= v < y && 0 <= u < ww) || (v == y && 0 <= u < x + 1) implies {
                    let k = start + v * ww + u;
                    let m = #[trigger] weight_at(
                        *weight,
                        sq@,
                        luma@,
                        hh,
                        ww,
                        bd as int,
                        plane,
                        num_ref_pixels,
                        v,
                        u,
                    );
                    &&& accum[k] == blended(a0[k] as int, m, pred[k].level())
                    &&& count[k] == counted(c0[k] as int, m)
                } by {
                    lemma_cells_apart(ww, v, u, y as int, x as int);
                    if v != y || u != x {
                        let i = start + v * ww + u;
                        assert(i != k);
                        assert(v * ww + ww <= hh * ww) by (nonlinear_arith)
                            requires
                                v + 1 <= hh,
                                ww >= 0,
                        ;
                        assert(accum[i] == a1[i] && count[i] == c1[i]);
                    }
                }
            }
        }
    }
}

impl TfFilterParams {
    /// Rows and columns of a plane of the block.
    pub open spec fn rows(self, plane: int) -> int {
        self.block_height as int / pow2i(self.subsampling_y[plane] as int)
    }

    pub open spec fn cols(self, plane: int) -> int {
        self.block_width as int / pow2i(self.subsampling_x[plane] as int)
    }

    /// Where a plane starts in the predictor and in the sums.
    pub open spec fn start(self, plane: int) -> int
        decreases plane,
    {
        if plane <= 0 {
            0
        } else {
            self.start(plane - 1) + self.rows(plane - 1) * self.cols(plane - 1)
        }
    }

    /// Where the block starts in a plane of the frame.
    pub open spec fn origin(self, plane: int, stride: int) -> int {
        self.mb_row * self.rows(plane) * stride + self.mb_col * self.cols(plane)
    }

    /// Subsampling of a plane relative to the first.
    pub open spec fn extra_x(self, plane: int) -> int {
        self.subsampling_x[plane] - self.subsampling_x[0]
    }

    pub open spec fn extra_y(self, plane: int) -> int {
        self.subsampling_y[plane] - self.subsampling_y[0]
    }

    /// Number of samples whose differences a weight sums up.
    pub open spec fn num_ref(self, plane: int) -> int {
        25 + (if plane > 0 {
            pow2i(self.extra_x(plane) + self.extra_y(plane))
        } else {
            0
        })
    }

    /// The block lies in the frame and in the buffers.
    pub open spec fn fits<P: TfPixel>(
        self,
        planes: Seq<TfPlane<P>>,
        pred_len: int,
        accum_len: int,
        count_len: int,
    ) -> bool {
        &&& 1 <= planes.len() <= 3
        &&& self.block_height * self.block_width <= usize::MAX
        &&& self.bd < 40
        &&& self.start(planes.len() as int) <= pred_len
        &&& self.start(planes.len() as int) <= accum_len
        &&& self.start(planes.len() as int) <= count_len
        &&& forall|p: int|
            0 <= p < planes.len() ==> self.plane_fits(
                (#[trigger] planes[p]).data@.len() as int,
                planes[p].stride as int,
                p,
            )
    }

    pub open spec fn plane_fits(self, len: int, stride: int, p: int) -> bool {
        let (h, w) = (self.rows(p), self.cols(p));
        &&& self.subsampling_x[p] < 16
        &&& self.subsampling_y[p] < 16
        &&& self.extra_x(p) >= 0
        &&& self.extra_y(p) >= 0
        &&& self.extra_x(p) + self.extra_y(p) < 30
        &&& h > 0 && w > 0 ==> is_quartered(h) && is_quartered(w)
        &&& self.mb_row * h <= usize::MAX
        &&& 0 <= self.mb_row * h * stride <= usize::MAX
        &&& 0 <= self.mb_col * w <= usize::MAX
        &&& self.origin(p, stride) <= len
        &&& block_fits(len - self.origin(p, stride), stride, h, w)
    }

    /// Squared differences of the frame and the predictor over a plane of the
    /// block.
    pub open spec fn errors<P: TfPixel>(self, planes: Seq<TfPlane<P>>, pred: Seq<P>, p: int) -> Seq<u32> {
        let w = self.cols(p);
        let f = planes[p];
        Seq::new(
            (self.rows(p) * w) as nat,
            |k: int|
                square_diff_of(
                    f.data@[self.origin(p, f.stride as int) + (k / w) * f.stride + k % w],
                    pred[self.start(p) + k],
                ) as u32,
        )
    }

    /// Luma differences by chroma sample; none while luma itself is filtered.
    pub open spec fn luma_errors<P: TfPixel>(
        self,
        planes: Seq<TfPlane<P>>,
        pred: Seq<P>,
        p: int,
    ) -> Seq<u32> {
        let w = self.cols(1);
        Seq::new(
            (self.block_height * self.block_width) as nat,
            |k: int|
                if p > 0 && k < self.rows(1) * w {
                    wrap32(
                        covered_luma(
                            self.errors(planes, pred, 0),
                            w,
                            self.extra_x(1),
                            self.extra_y(1),
                            k / w,
                            k % w,
                        ),
                    ) as u32
                } else {
                    0
                },
        )
    }

    /// The weight of a sample of the block.
    pub open spec fn weight<P: TfPixel, W: Fn(usize, u64, i32, usize) -> i32>(
        self,
        f: W,
        planes: Seq<TfPlane<P>>,
        pred: Seq<P>,
        p: int,
        y: int,
        x: int,
    ) -> int {
        weight_at(
            f,
            self.errors(planes, pred, p),
            self.luma_errors(planes, pred, p),
            self.rows(p),
            self.cols(p),
            self.bd as int,
            p as usize,
            self.num_ref(p) as i32,
            y,
            x,
        )
    }

    /// The first `n` planes are blended into the sums, and nothing else is
    /// changed.
    pub open spec fn is_blended<P: TfPixel, W: Fn(usize, u64, i32, usize) -> i32>(
        self,
        f: W,
        planes: Seq<TfPlane<P>>,
        pred: Seq<P>,
        n: int,
        accum0: Seq<u32>,
        count0: Seq<u16>,
        accum: Seq<u32>,
        count: Seq<u16>,
    ) -> bool {
        &&& accum.len() == accum0.len()
        &&& count.len() == count0.len()
        &&& forall|p: int, y: int, x: int|
            0 <= p < n && 0 <= y < self.rows(p) && 0 <= x < self.cols(p) ==> {
                let k = self.start(p) + y * self.cols(p) + x;
                let m = #[trigger] self.weight(f, planes, pred, p, y, x);
                &&& accum[k] == blended(accum0[k] as int, m, pred[k].level())
                &&& count[k] == counted(count0[k] as int, m)
            }
        &&& forall|k: int| self.start(n) <= k < accum.len() ==> #[trigger] accum[k] == accum0[k]
        &&& forall|k: int| self.start(n) <= k < count.len() ==> #[trigger] count[k] == count0[k]
    }
}

/// Window sums read only the cells of the plane.
proof fn lemma_window_same(a: Seq<u32>, b: Seq<u32>, h: int, w: int, y: int, x: int, m: int)
    requires
        h > 0,
        w > 0,
        forall|v: int, u: int| 0 <= v < h && 0 <= u < w ==> #[trigger] at(a, w, v, u) == at(b, w, v, u),
    ensures
        window_sum(a, h, w, y, x, m) == window_sum(b, h, w, y, x, m),
    decreases m,
{
    if m > 0 {
        lemma_window_same(a, b, h, w, y, x, m - 1);
        lemma_window_row_same(a, b, h, w, clamped(y + m - 3, h), x, 5);
    }
}

proof fn lemma_window_row_same(a: Seq<u32>, b: Seq<u32>, h: int, w: int, y: int, x: int, n: int)
    requires
        0 <= y < h,
        w > 0,
        forall|v: int, u: int| 0 <= v < h && 0 <= u < w ==> #[trigger] at(a, w, v, u) == at(b, w, v, u),
    ensures
        window_row_sum(a, w, y, x, n) == window_row_sum(b, w, y, x, n),
    decreases n,
{
    if n > 0 {
        lemma_window_row_same(a, b, h, w, y, x, n - 1);
        assert(at(a, w, y, clamped(x + n - 3, w)) == at(b, w, y, clamped(x + n - 3, w)));
    }
}

proof fn lemma_weight_same<W: Fn(usize, u64, i32, usize) -> i32>(
    f: W,
    a: Seq<u32>,
    b: Seq<u32>,
    la: Seq<u32>,
    lb: Seq<u32>,
    h: int,
    w: int,
    bd: int,
    plane: usize,
    num: i32,
    y: int,
    x: int,
)
    requires
        0 <= y < h,
        0 <= x < w,
        forall|v: int, u: int| 0 <= v < h && 0 <= u < w ==> #[trigger] at(a, w, v, u) == at(b, w, v, u),
        at(la, w, y, x) == at(lb, w, y, x),
    ensures
        weight_at(f, a, la, h, w, bd, plane, num, y, x) == weight_at(
            f,
            b,
            lb,
            h,
            w,
            bd,
            plane,
            num,
            y,
            x,
        ),
{
    lemma_window_same(a, b, h, w, y, x, 5);
}

proof fn lemma_shrink(a: int, n: int)
    requires
        0 <= a,
        0 <= n,
    ensures
        0 <= a / pow2i(n) <= a,
        (a / pow2i(n)) * pow2i(n) <= a,
{
    crate::arith::lemma_pow2i_pos(n);
    let p = pow2i(n);
    assert(0 <= a / p <= a && (a / p) * p <= a) by (nonlinear_arith)
        requires
            a >= 0,
            p >= 1,
    ;
}

proof fn lemma_start_mono(params: TfFilterParams, a: int, b: int)
    requires
        0 <= a <= b,
        forall|p: int| 0 <= p < b ==> #[trigger] params.rows(p) * params.cols(p) >= 0,
    ensures
        0 <= params.start(a) <= params.start(b),
    decreases b,
{
    if a < b {
        lemma_start_mono(params, a, b - 1);
        assert(params.rows(b - 1) * params.cols(b - 1) >= 0);
    } else if a > 0 {
        lemma_start_mono(params, a - 1, a - 1);
        assert(params.rows(a - 1) * params.cols(a - 1) >= 0);
    }
}

proof fn lemma_pow2i_sum(m: int, n: int)
    requires
        0 <= m,
        0 <= n,
    ensures
        pow2i(m + n) == pow2i(m) * pow2i(n),
    decreases m,
{
    if m > 0 {
        lemma_pow2i_sum(m - 1, n);
        let (a, b) = (pow2i(m - 1), pow2i(n));
        assert(2 * (a * b) == (2 * a) * b) by (nonlinear_arith);
    } else {
        assert(1 * pow2i(n) == pow2i(n));
    }
}

/// Shrinking by `m` bits and growing again by `m - n` stays within shrinking
/// by `n`.
proof fn lemma_shrink_grow(a: int, m: int, n: int)
    requires
        0 <= a,
        0 <= n <= m,
    ensures
        0 <= (a / pow2i(m)) * pow2i(m - n) <= a / pow2i(n),
{
    lemma_pow2i_sum(m - n, n);
    crate::arith::lemma_pow2i_pos(n);
    crate::arith::lemma_pow2i_pos(m - n);
    let (p, q, r) = (pow2i(m), pow2i(m - n), pow2i(n));
    let t = a / p;
    assert(0 <= t && t * p <= a && p >= 1) by (nonlinear_arith)
        requires
            a >= 0,
            p == q * r,
            q >= 1,
            r >= 1,
            t == a / p,
    ;
    assert(0 <= t * q && (t * q) * r <= a) by (nonlinear_arith)
        requires
            t * p <= a,
            p == q * r,
            t >= 0,
            q >= 1,
    ;
    assert(t * q <= a / r) by (nonlinear_arith)
        requires
            (t * q) * r <= a,
            r >= 1,
    ;
}

/// A buffer starts with the `n` values of `e`.
pub open spec fn starts_with(s: Seq<u32>, e: Seq<u32>, n: int) -> bool {
    &&& e.len() == n
    &&& forall|k: int| 0 <= k < n ==> #[trigger] e[k] == s[k]
}

/// The cells of a plane, one after the other, are its errors.
proof fn lemma_flat_errors<P: TfPixel>(
    params: TfFilterParams,
    planes: Seq<TfPlane<P>>,
    pred: Seq<P>,
    p: int,
    frame: Seq<P>,
    target: Seq<P>,
    before: Seq<u32>,
    sq: Seq<u32>,
)
    requires
        0 <= p < planes.len(),
        params.rows(p) >= 0,
        params.cols(p) >= 0,
        params.rows(p) * params.cols(p) <= sq.len(),
        params.start(p) >= 0,
        params.origin(p, planes[p].stride as int) >= 0,
        params.start(p) + params.rows(p) * params.cols(p) <= pred.len(),
        params.origin(p, planes[p].stride as int) <= planes[p].data@.len(),
        block_fits(
            planes[p].data@.len() - params.origin(p, planes[p].stride as int),
            planes[p].stride as int,
            params.rows(p),
            params.cols(p),
        ),
        frame == planes[p].data@.subrange(
            params.origin(p, planes[p].stride as int),
            planes[p].data@.len() as int,
        ),
        target == pred.subrange(params.start(p), pred.len() as int),
        holds_square_diff(
            frame,
            planes[p].stride as int,
            target,
            params.cols(p),
            params.rows(p),
            params.cols(p),
            before,
            sq,
        ),
    ensures
        starts_with(sq, params.errors(planes, pred, p), params.rows(p) * params.cols(p)),
{
    let (h, w) = (params.rows(p), params.cols(p));
    let stride = planes[p].stride as int;
    let o = params.origin(p, stride);
    assert(h * w >= 0) by (nonlinear_arith)
        requires
            h >= 0,
            w >= 0,
    ;
    assert forall|k: int| 0 <= k < h * w implies #[trigger] params.errors(planes, pred, p)[k]
        == sq[k] by {
        assert(w > 0 && h > 0) by (nonlinear_arith)
            requires
                0 <= k < h * w,
                h >= 0,
                w >= 0,
        ;
        let (y, x) = (k / w, k % w);
        assert(k == y * w + x && 0 <= x < w && 0 <= y < h) by (nonlinear_arith)
            requires
                y == k / w,
                x == k % w,
                0 <= k < h * w,
                w > 0,
        ;
        assert(at(sq, w, y, x) == sq[k]);
        assert(row_end(stride, w, y) <= planes[p].data@.len() - o);
        assert(0 <= y * stride) by (nonlinear_arith)
            requires
                y >= 0,
                stride >= 0,
        ;
        assert(at(frame, stride, y, x) == planes[p].data@[o + y * stride + x]);
        assert(at(target, w, y, x) == pred[params.start(p) + k]);
    }
}

/// The luma differences by chroma sample are sums over the errors of luma.
proof fn lemma_covered_same(
    a: Seq<u32>,
    b: Seq<u32>,
    w: int,
    h: int,
    sx: int,
    sy: int,
    y: int,
    x: int,
    n: int,
)
    requires
        0 <= y < h,
        0 <= x < w,
        0 <= sx,
        0 <= sy,
        (h * pow2i(sy)) * (w * pow2i(sx)) <= n,
        forall|k: int| 0 <= k < n ==> #[trigger] a[k] == b[k],
    ensures
        covered_luma(a, w, sx, sy, y, x) == covered_luma(b, w, sx, sy, y, x),
{
    crate::arith::lemma_pow2i_pos(sx);
    crate::arith::lemma_pow2i_pos(sy);
    let (px, py) = (pow2i(sx), pow2i(sy));
    let ww = w * px;
    let off = y * py * ww + x * px;
    let p = |k: int| a[k] as int;
    let q = |k: int| b[k] as int;
    assert forall|r: int, c: int| 0 <= r < py && 0 <= c < px implies p(off + r * ww + c)
        == #[trigger] q(off + r * ww + c) by {
        let v = y * py + r;
        let u = x * px + c;
        assert(0 <= v < h * py) by (nonlinear_arith)
            requires
                v == y * py + r,
                0 <= r < py,
                0 <= y,
                y + 1 <= h,
        ;
        assert(0 <= u < ww) by (nonlinear_arith)
            requires
                u == x * px + c,
                0 <= c < px,
                0 <= x,
                x + 1 <= w,
                ww == w * px,
        ;
        assert(v * ww == y * py * ww + r * ww) by (nonlinear_arith)
            requires
                v == y * py + r,
        ;
        assert(0 <= v * ww && v * ww + ww <= (h * py) * ww) by (nonlinear_arith)
            requires
                0 <= v,
                v + 1 <= h * py,
                ww >= 0,
        ;
        let k = off + r * ww + c;
        assert(0 <= k < n);
        assert(a[k] == b[k]);
    }
    crate::samples::lemma_block_total_same(p, q, off, ww, off, ww, px, py);
}

proof fn lemma_dense_block_fits(len: int, h: int, w: int)
    requires
        0 <= w,
        h * w <= len,
    ensures
        block_fits(len, w, h, w),
{
    assert forall|y: int| 0 <= y < h implies #[trigger] row_end(w, w, y) <= len by {
        assert(y * w + w <= h * w) by (nonlinear_arith)
            requires
                y + 1 <= h,
                w >= 0,
        ;
    }
}

impl TfFilterParams {
    proof fn lemma_plane_sizes(self, p: int)
        requires
            0 <= p < 3,
        ensures
            0 <= self.rows(p) <= self.block_height,
            0 <= self.cols(p) <= self.block_width,
            0 <= self.rows(p) * self.cols(p) <= self.block_height * self.block_width,
    {
        lemma_shrink(self.block_height as int, self.subsampling_y[p] as int);
        lemma_shrink(self.block_width as int, self.subsampling_x[p] as int);
        let (h, w, bh, bw) = (
            self.rows(p),
            self.cols(p),
            self.block_height as int,
            self.block_width as int,
        );
        assert(0 <= h * w <= bh * bw) by (nonlinear_arith)
            requires
                0 <= h <= bh,
                0 <= w <= bw,
        ;
    }

    proof fn lemma_starts(self, a: int, b: int)
        requires
            0 <= a <= b <= 3,
        ensures
            0 <= self.start(a) <= self.start(b),
    {
        assert forall|p: int| 0 <= p < b implies #[trigger] self.rows(p) * self.cols(p) >= 0 by {
            self.lemma_plane_sizes(p);
        }
        lemma_start_mono(self, a, b);
    }

    /// Rows and columns of a plane of the block, its start in the frame, and
    /// the number of samples to a weight.
    fn plane_geometry(&self, plane: usize, stride: usize, len: usize) -> (r: (usize, usize, usize, i32))
        requires
            plane < 3,
            self.plane_fits(len as int, stride as int, plane as int),
        ensures
            r.0 == self.rows(plane as int),
            r.1 == self.cols(plane as int),
            r.2 == self.origin(plane as int, stride as int),
            r.3 == self.num_ref(plane as int),
    {
        let ghost p = plane as int;
        proof {
            crate::arith::lemma_pow2i_pos(self.subsampling_y[p] as int);
            crate::arith::lemma_pow2i_pos(self.subsampling_x[p] as int);
            let e = self.extra_x(p) + self.extra_y(p);
            crate::arith::lemma_pow2i_mono(e, 30);
            assert(pow2i(30) == 0x4000_0000) by {
                reveal_with_fuel(pow2i, 31);
            }
        }
        let h: usize = self.block_height / pow2_usize(self.subsampling_y[plane]);
        let w: usize = self.block_width / pow2_usize(self.subsampling_x[plane]);
        assert(self.mb_row * h * stride == (self.mb_row * h) * stride);
        let origin: usize = self.mb_row * h * stride + self.mb_col * w;
        let extra: u32 = (self.subsampling_x[plane] - self.subsampling_x[0]) + (
        self.subsampling_y[plane] - self.subsampling_y[0]);
        let num_ref: i32 = 25 + (if plane > 0 {
            crate::tpl_model::pow2_of(extra as u8)
        } else {
            0
        });
        (h, w, origin, num_ref)
    }

    /// The luma differences by chroma sample, from the errors of luma.
    #[verifier::spinoff_prover]
    fn fold_luma<P: TfPixel>(
        &self,
        sq: &[u32],
        luma: &mut [u32],
        Ghost(planes): Ghost<Seq<TfPlane<P>>>,
        Ghost(pred): Ghost<Seq<P>>,
    )
        requires
            self.plane_fits(planes[1].data@.len() as int, planes[1].stride as int, 1),
            self.plane_fits(planes[0].data@.len() as int, planes[0].stride as int, 0),
            sq.len() == self.block_height * self.block_width,
            old(luma).len() == sq.len(),
            forall|k: int| 0 <= k < old(luma).len() ==> #[trigger] old(luma)[k] == 0,
            starts_with(sq@, self.errors(planes, pred, 0), self.rows(0) * self.cols(0)),
        ensures
            final(luma)@ == self.luma_errors(planes, pred, 1),
    {
        let ghost (bh, bw) = (self.block_height as int, self.block_width as int);
        proof {
            self.lemma_plane_sizes(1);
            self.lemma_plane_sizes(0);
            crate::arith::lemma_pow2i_pos(self.subsampling_y[1] as int);
            crate::arith::lemma_pow2i_pos(self.subsampling_x[1] as int);
        }
        let h: usize = self.block_height / pow2_usize(self.subsampling_y[1]);
        let w: usize = self.block_width / pow2_usize(self.subsampling_x[1]);
        let sx: u32 = self.subsampling_x[1] - self.subsampling_x[0];
        let sy: u32 = self.subsampling_y[1] - self.subsampling_y[0];
        let ghost n = self.rows(0) * self.cols(0);
        proof {
            lemma_shrink_grow(bh, self.subsampling_y[1] as int, self.subsampling_y[0] as int);
            lemma_shrink_grow(bw, self.subsampling_x[1] as int, self.subsampling_x[0] as int);
            let (a, b, c, d) = (
                h * pow2i(sy as int),
                w * pow2i(sx as int),
                self.rows(0),
                self.cols(0),
            );
            assert(0 <= a <= c && 0 <= b <= d);
            assert(a * b <= c * d) by (nonlinear_arith)
                requires
                    0 <= a <= c,
                    0 <= b <= d,
            ;
        }
        compute_luma_sq_error_sum(sq, luma, h, w, sx, sy);
        proof {
            let e = self.errors(planes, pred, 0);
            let target = self.luma_errors(planes, pred, 1);
            let (hh, ww) = (h as int, w as int);
            assert forall|k: int| 0 <= k < target.len() implies #[trigger] luma@[k] == target[k] by {
                if k < hh * ww {
                    assert(ww > 0 && hh > 0) by (nonlinear_arith)
                        requires
                            0 <= k < hh * ww,
                            hh >= 0,
                            ww >= 0,
                    ;
                    let (y, x) = (k / ww, k % ww);
                    assert(k == y * ww + x && 0 <= x < ww && 0 <= y < hh) by (nonlinear_arith)
                        requires
                            y == k / ww,
                            x == k % ww,
                            0 <= k < hh * ww,
                            ww > 0,
                    ;
                    assert(at(luma@, ww, y, x) == luma@[k]);
                    lemma_covered_same(sq@, e, ww, hh, sx as int, sy as int, y, x, n);
                }
            }
            assert(luma@ =~= target);
        }
    }
}

/// Blend the predictor of a block into the sums: each sample with a weight
/// that falls with the differences around it. Chroma goes by the luma
/// differences too.
#[verifier::spinoff_prover]
#[verifier::rlimit(80)]
pub fn apply_temporal_filter<P: TfPixel, W: Fn(usize, u64, i32, usize) -> i32>(
    frame_planes: &[TfPlane<'_, P>],
    params: &TfFilterParams,
    pred: &[P],
    accum: &mut [u32],
    count: &mut [u16],
    weight: &W,
)
    requires
        is_weight_model(*weight, frame_planes.len() as int),
        params.fits(
            frame_planes@,
            pred.len() as int,
            old(accum).len() as int,
            old(count).len() as int,
        ),
    ensures
        params.is_blended(
            *weight,
            frame_planes@,
            pred@,
            frame_planes.len() as int,
            old(accum)@,
            old(count)@,
            final(accum)@,
            final(count)@,
        ),
{
    let num_planes: usize = frame_planes.len();
    let mb_pels: usize = params.block_height * params.block_width;
    let mut square_diff: Vec<u32> = vec![0; mb_pels];
    let mut luma_sse_sum: Vec<u32> = vec![0; mb_pels];
    let ghost (a0, c0) = (accum@, count@);
    let ghost planes = frame_planes@;
    let mut plane_offset: usize = 0;
    for plane in 0..num_planes
        invariant
            is_weight_model(*weight, num_planes as int),
            planes == frame_planes@,
            num_planes == planes.len(),
            params.fits(planes, pred.len() as int, accum.len() as int, count.len() as int),
            mb_pels == params.block_height * params.block_width,
            square_diff.len() == mb_pels,
            luma_sse_sum.len() == mb_pels,
            plane_offset == params.start(plane as int),
            plane <= 1 ==> forall|k: int|
                0 <= k < mb_pels ==> #[trigger] luma_sse_sum[k] == 0,
            plane >= 2 ==> luma_sse_sum@ == params.luma_errors(planes, pred@, 1),
            plane >= 1 ==> starts_with(
                square_diff@,
                params.errors(planes, pred@, plane - 1),
                params.rows(plane - 1) * params.cols(plane - 1),
            ),
            params.is_blended(*weight, planes, pred@, plane as int, a0, c0, accum@, count@),
    {
        let ghost p = plane as int;
        let frame = &frame_planes[plane];
        assert(planes[p] == *frame);
        let (h, w, origin, num_ref_pixels) = params.plane_geometry(
            plane,
            frame.stride,
            frame.data.len(),
        );
        proof {
            params.lemma_plane_sizes(p);
            params.lemma_starts(p, p + 1);
            params.lemma_starts(p + 1, num_planes as int);
            assert(params.start(p + 1) == params.start(p) + params.rows(p) * params.cols(p));
        }
        if plane == 1 {
            assert(planes[0] == frame_planes[0]);
            params.fold_luma::<P>(
                square_diff.as_slice(),
                luma_sse_sum.as_mut_slice(),
                Ghost(planes),
                Ghost(pred@),
            );
        }
        proof {
            assert(luma_sse_sum@ =~= params.luma_errors(planes, pred@, p));
            lemma_dense_block_fits(pred.len() - plane_offset, h as int, w as int);
        }
        let window: &[P] = vstd::slice::slice_subrange(frame.data, origin, frame.data.len());
        let target: &[P] = vstd::slice::slice_subrange(pred, plane_offset, pred.len());
        let ghost sq_before = square_diff@;
        compute_square_diff(window, frame.stride, target, w, h, w, square_diff.as_mut_slice());
        proof {
            lemma_flat_errors(
                *params,
                planes,
                pred@,
                p,
                window@,
                target@,
                sq_before,
                square_diff@,
            );
        }
        let ghost (a1, c1) = (accum@, count@);
        assert(weighs_plane(*weight, plane));
        filter_plane(
            square_diff.as_slice(),
            luma_sse_sum.as_slice(),
            h,
            w,
            params.bd,
            plane,
            num_ref_pixels,
            pred,
            plane_offset,
            accum,
            count,
            weight,
        );
        proof {
            lemma_blend_step(
                *params,
                *weight,
                planes,
                pred@,
                p,
                square_diff@,
                a0,
                c0,
                a1,
                c1,
                accum@,
                count@,
            );
        }
        plane_offset = plane_offset + h * w;
    }
}

#[verifier::spinoff_prover]
proof fn lemma_blend_step<P: TfPixel, W: Fn(usize, u64, i32, usize) -> i32>(
    params: TfFilterParams,
    f: W,
    planes: Seq<TfPlane<P>>,
    pred: Seq<P>,
    p: int,
    sq: Seq<u32>,
    a0: Seq<u32>,
    c0: Seq<u16>,
    a1: Seq<u32>,
    c1: Seq<u16>,
    a2: Seq<u32>,
    c2: Seq<u16>,
)
    requires
        0 <= p < planes.len() <= 3,
        params.start(planes.len() as int) <= a0.len(),
        params.start(planes.len() as int) <= c0.len(),
        params.is_blended(f, planes, pred, p, a0, c0, a1, c1),
        starts_with(sq, params.errors(planes, pred, p), params.rows(p) * params.cols(p)),
        a2.len() == a1.len(),
        c2.len() == c1.len(),
        forall|y: int, x: int|
            0 <= y < params.rows(p) && 0 <= x < params.cols(p) ==> {
                let k = params.start(p) + y * params.cols(p) + x;
                let m = #[trigger] weight_at(
                    f,
                    sq,
                    params.luma_errors(planes, pred, p),
                    params.rows(p),
                    params.cols(p),
                    params.bd as int,
                    p as usize,
                    params.num_ref(p) as i32,
                    y,
                    x,
                );
                &&& a2[k] == blended(a1[k] as int, m, pred[k].level())
                &&& c2[k] == counted(c1[k] as int, m)
            },
        forall|k: int|
            0 <= k < a2.len() && !(params.start(p) <= k < params.start(p) + params.rows(p)
                * params.cols(p)) ==> #[trigger] a2[k] == a1[k],
        forall|k: int|
            0 <= k < c2.len() && !(params.start(p) <= k < params.start(p) + params.rows(p)
                * params.cols(p)) ==> #[trigger] c2[k] == c1[k],
    ensures
        params.is_blended(f, planes, pred, p + 1, a0, c0, a2, c2),
{
    let (h, w) = (params.rows(p), params.cols(p));
    let e = params.errors(planes, pred, p);
    let l = params.luma_errors(planes, pred, p);
    params.lemma_plane_sizes(p);
    params.lemma_starts(p, p + 1);
    params.lemma_starts(p + 1, planes.len() as int);
    assert(params.start(p + 1) == params.start(p) + h * w);
    assert forall|q: int, y: int, x: int|
        0 <= q < p + 1 && 0 <= y < params.rows(q) && 0 <= x < params.cols(q) implies {
        let k = params.start(q) + y * params.cols(q) + x;
        let m = #[trigger] params.weight(f, planes, pred, q, y, x);
        &&& a2[k] == blended(a0[k] as int, m, pred[k].level())
        &&& c2[k] == counted(c0[k] as int, m)
    } by {
        let k = params.start(q) + y * params.cols(q) + x;
        let (hq, wq) = (params.rows(q), params.cols(q));
        assert(0 <= y * wq && y * wq + wq <= hq * wq) by (nonlinear_arith)
            requires
                0 <= y,
                y + 1 <= hq,
                0 <= wq,
        ;
        params.lemma_starts(q, q + 1);
        params.lemma_starts(q + 1, p + 1);
        assert(params.start(q + 1) == params.start(q) + hq * wq);
        assert(0 <= k < params.start(q + 1));
        if q < p {
            params.lemma_starts(q + 1, p);
            assert(a2[k] == a1[k] && c2[k] == c1[k]);
            assert(params.weight(f, planes, pred, q, y, x) == params.weight(
                f,
                planes,
                pred,
                q,
                y,
                x,
            ));
        } else {
            assert forall|v: int, u: int| 0 <= v < h && 0 <= u < w implies #[trigger] at(
                sq,
                w,
                v,
                u,
            ) == at(e, w, v, u) by {
                assert(0 <= v * w && v * w + w <= h * w) by (nonlinear_arith)
                    requires
                        0 <= v,
                        v + 1 <= h,
                        0 <= w,
                ;
                assert(e[v * w + u] == sq[v * w + u]);
            }
            lemma_weight_same(
                f,
                sq,
                e,
                l,
                l,
                h,
                w,
                params.bd as int,
                p as usize,
                params.num_ref(p) as i32,
                y,
                x,
            );
            assert(a1[k] == a0[k] && c1[k] == c0[k]);
        }
    }
}

/// Bound on a mean squared error of the motion search.
pub open spec fn mse_in_range(m: i32) -> bool {
    -0x400_0000 <= m <= 0x3ff_ffff
}

/// Sum of the first `n` errors from `i` on.
pub open spec fn mse_sum(s: Seq<i32>, i: int, n: int) -> int
    decreases n,
{
    if n <= 0 {
        0
    } else {
        mse_sum(s, i, n - 1) + s[i + n - 1]
    }
}

/// The largest and the smallest of the first `n` errors from `i` on.
pub open spec fn mse_max(s: Seq<i32>, i: int, n: int) -> int
    decreases n,
{
    if n <= 1 {
        s[i] as int
    } else {
        max_int(mse_max(s, i, n - 1), s[i + n - 1] as int)
    }
}

pub open spec fn mse_min(s: Seq<i32>, i: int, n: int) -> int
    decreases n,
{
    if n <= 1 {
        s[i] as int
    } else {
        min_int(mse_min(s, i, n - 1), s[i + n - 1] as int)
    }
}

/// One search over a 32x32 block does about as well as four over its quarters.
pub open spec fn quad_merges(mses: Seq<i32>, idx: int, mid: int) -> bool {
    let sum = mse_sum(mses, 4 * idx, 4);
    let spread = mse_max(mses, 4 * idx, 4) - mse_min(mses, 4 * idx, 4);
    (mid * 15 <= sum * 4 && spread < 48) || (mid * 14 <= sum * 4 && spread < 24)
}

/// One search over a 64x64 block does about as well as those over its parts.
pub open spec fn block_merges(mses: Seq<i32>, mse: int) -> bool {
    let sum = mse_sum(mses, 0, 16);
    let spread = mse_max(mses, 0, 16) - mse_min(mses, 0, 16);
    (mse * 15 <= sum && spread * 16 < sum * 3) || (mse * 14 <= sum && spread * 8 < sum)
}

/// The errors after the 32x32 blocks were looked at.
pub open spec fn quads_merged(mids: Seq<i32>, subs: Seq<i32>) -> Seq<i32> {
    Seq::new(
        16,
        |i: int|
            if quad_merges(subs, i / 4, mids[i / 4] as int) {
                mids[i / 4]
            } else {
                subs[i]
            },
    )
}

/// The vectors after the 32x32 blocks were looked at.
pub open spec fn quad_mvs_merged(
    mids: Seq<i32>,
    subs: Seq<i32>,
    mid_mvs: Seq<(i16, i16)>,
    sub_mvs: Seq<(i16, i16)>,
) -> Seq<(i16, i16)> {
    Seq::new(
        16,
        |i: int|
            if quad_merges(subs, i / 4, mids[i / 4] as int) {
                mid_mvs[i / 4]
            } else {
                sub_mvs[i]
            },
    )
}

/// Sum, smallest and largest of `n` errors.
fn mse_figures(mses: &[i32; 16], i: usize, n: usize) -> (r: (i64, i32, i32))
    requires
        1 <= n <= 16,
        i + n <= 16,
        forall|k: int| 0 <= k < 16 ==> mse_in_range(#[trigger] mses[k]),
    ensures
        r.0 == mse_sum(mses@, i as int, n as int),
        r.1 == mse_min(mses@, i as int, n as int),
        r.2 == mse_max(mses@, i as int, n as int),
        -0x4000_0000 <= r.0 <= 0x4000_0000,
        -0x400_0000 <= r.1 <= 0x3ff_ffff,
        -0x400_0000 <= r.2 <= 0x3ff_ffff,
        r.1 <= r.2,
{
    let mut sum: i64 = mses[i] as i64;
    let mut low: i32 = mses[i];
    let mut high: i32 = mses[i];
    proof {
        reveal_with_fuel(mse_sum, 2);
    }
    for k in 1..n
        invariant
            i + n <= 16,
            forall|k: int| 0 <= k < 16 ==> mse_in_range(#[trigger] mses[k]),
            sum == mse_sum(mses@, i as int, k as int),
            low == mse_min(mses@, i as int, k as int),
            high == mse_max(mses@, i as int, k as int),
            -0x400_0000 * k <= sum <= 0x400_0000 * k,
            -0x400_0000 <= low <= high <= 0x3ff_ffff,
    {
        let m: i32 = mses[i + k];
        sum = sum + m as i64;
        if m < low {
            low = m;
        }
        if m > high {
            high = m;
        }
    }
    (sum, low, high)
}

/// Decide for each 32x32 block, and then for the 64x64 block, whether one
/// motion search does about as well as those over its parts; where it does,
/// its vector and error take their place.
pub fn tf_determine_block_partition(
    block_mv: (i16, i16),
    block_mse: i32,
    midblock_mvs: &[(i16, i16); 4],
    midblock_mses: &[i32; 4],
    subblock_mvs: &mut [(i16, i16); 16],
    subblock_mses: &mut [i32; 16],
)
    requires
        mse_in_range(block_mse),
        forall|k: int| 0 <= k < 4 ==> mse_in_range(#[trigger] midblock_mses[k]),
        forall|k: int| 0 <= k < 16 ==> mse_in_range(#[trigger] old(subblock_mses)[k]),
    ensures
        ({
            let mses = quads_merged(midblock_mses@, old(subblock_mses)@);
            let mvs = quad_mvs_merged(
                midblock_mses@,
                old(subblock_mses)@,
                midblock_mvs@,
                old(subblock_mvs)@,
            );
            if block_merges(mses, block_mse as int) {
                &&& forall|k: int| 0 <= k < 16 ==> #[trigger] final(subblock_mses)[k] == block_mse
                &&& forall|k: int| 0 <= k < 16 ==> #[trigger] final(subblock_mvs)[k] == block_mv
            } else {
                &&& final(subblock_mses)@ == mses
                &&& final(subblock_mvs)@ == mvs
            }
        }),
{
    let ghost (e0, v0) = (subblock_mses@, subblock_mvs@);
    for idx in 0usize..4
        invariant
            e0.len() == 16,
            v0.len() == 16,
            forall|k: int| 0 <= k < 4 ==> mse_in_range(#[trigger] midblock_mses[k]),
            forall|k: int| 0 <= k < 16 ==> mse_in_range(#[trigger] subblock_mses[k]),
            forall|k: int|
                0 <= k < 16 ==> #[trigger] subblock_mses@[k] == if k < 4 * idx {
                    quads_merged(midblock_mses@, e0)[k]
                } else {
                    e0[k]
                },
            forall|k: int|
                0 <= k < 16 ==> #[trigger] subblock_mvs@[k] == if k < 4 * idx {
                    quad_mvs_merged(midblock_mses@, e0, midblock_mvs@, v0)[k]
                } else {
                    v0[k]
                },
    {
        let sub_idx: usize = idx * 4;
        let (sum, low, high) = mse_figures(subblock_mses, sub_idx, 4);
        proof {
            lemma_mse_same(subblock_mses@, e0, sub_idx as int, 4);
        }
        let mid: i32 = midblock_mses[idx];
        let no_split = ((mid * 15) as i64 <= sum * 4 && high - low < 48) || ((mid * 14) as i64
            <= sum * 4 && high - low < 24);
        assert(no_split == quad_merges(e0, idx as int, mid as int));
        if no_split {
            for i in sub_idx..sub_idx + 4
                invariant
                    idx < 4,
                    sub_idx == 4 * idx,
                    e0.len() == 16,
                    v0.len() == 16,
                    mid == midblock_mses[idx as int],
                    mse_in_range(mid),
                    quad_merges(e0, idx as int, mid as int),
                    forall|k: int| 0 <= k < 16 ==> mse_in_range(#[trigger] subblock_mses[k]),
                    forall|k: int|
                        0 <= k < 16 ==> #[trigger] subblock_mses@[k] == if k < i {
                            quads_merged(midblock_mses@, e0)[k]
                        } else {
                            e0[k]
                        },
                    forall|k: int|
                        0 <= k < 16 ==> #[trigger] subblock_mvs@[k] == if k < i {
                            quad_mvs_merged(midblock_mses@, e0, midblock_mvs@, v0)[k]
                        } else {
                            v0[k]
                        },
            {
                subblock_mvs[i] = midblock_mvs[idx];
                subblock_mses[i] = midblock_mses[idx];
            }
        }
    }
    proof {
        assert(subblock_mses@ =~= quads_merged(midblock_mses@, e0));
        assert(subblock_mvs@ =~= quad_mvs_merged(midblock_mses@, e0, midblock_mvs@, v0));
    }
    let (sum, low, high) = mse_figures(subblock_mses, 0, 16);
    let spread: i32 = high - low;
    let no_split = ((block_mse * 15) as i64 <= sum && (spread as i64) * 16 < sum * 3) || ((block_mse
        * 14) as i64 <= sum && (spread as i64) * 8 < sum);
    if no_split {
        for i in 0usize..16
            invariant
                forall|k: int| 0 <= k < i ==> #[trigger] subblock_mses[k] == block_mse,
                forall|k: int| 0 <= k < i ==> #[trigger] subblock_mvs[k] == block_mv,
        {
            subblock_mvs[i] = block_mv;
            subblock_mses[i] = block_mse;
        }
    }
}

proof fn lemma_mse_same(a: Seq<i32>, b: Seq<i32>, i: int, n: int)
    requires
        n >= 1,
        forall|k: int| i <= k < i + n ==> #[trigger] a[k] == b[k],
    ensures
        mse_sum(a, i, n) == mse_sum(b, i, n),
        mse_max(a, i, n) == mse_max(b, i, n),
        mse_min(a, i, n) == mse_min(b, i, n),
    decreases n,
{
    reveal_with_fuel(mse_sum, 2);
    if n > 1 {
        lemma_mse_same(a, b, i, n - 1);
    }
}

/// `x / d`.
#[must_use]
pub fn od_divu(x: u32, d: u16) -> (r: u32)
    requires
        d != 0,
    ensures
        r == x as int / d as int,
{
    x / d as u32
}

/// Filtering is on: it has frames to blend and frames ahead.
#[must_use]
pub fn is_temporal_filter_on(arnr_max_frames: i32, lag_in_frames: i32) -> (r: bool)
    ensures
        r == (arnr_max_frames > 0 && lag_in_frames > 1),
{
    arnr_max_frames > 0 && lag_in_frames > 1
}

/// Number of blocks along one side of a frame.
#[must_use]
pub fn get_num_blocks(frame_length: i32, mb_length: i32) -> (r: i32)
    requires
        mb_length > 0,
        frame_length + mb_length <= i32::MAX,
    ensures
        r == crate::arith::trunc_div(frame_length + mb_length - 1, mb_length as int),
{
    let x: i64 = frame_length as i64 + mb_length as i64 - 1;
    if x < 0 {
        proof {
            let (a, b) = (-(x as int), mb_length as int);
            assert(0 <= a / b <= a) by (nonlinear_arith)
                requires
                    a >= 0,
                    b >= 1,
            ;
        }
        (-((-x) / mb_length as i64)) as i32
    } else {
        proof {
            let (a, b) = (x as int, mb_length as int);
            assert(0 <= a / b <= a) by (nonlinear_arith)
                requires
                    a >= 0,
                    b >= 1,
            ;
        }
        (x / mb_length as i64) as i32
    }
}

/// Filter blocks along a side of a frame.
pub open spec fn blocks_along(length: int) -> int {
    crate::arith::trunc_div(length + TF_BLOCK_DIM - 1, TF_BLOCK_DIM as int)
}

/// Number of filter blocks of a frame, at least one: what the differences of
/// a filtered frame are averaged over. None where an overlay is not coded, or
/// the frame is a second alternate reference, and the filtered frame is shown
/// whatever the differences are.
#[must_use]
pub fn shown_frame_blocks(
    frame_width: i32,
    frame_height: i32,
    enable_overlay: bool,
    is_second_arf: bool,
) -> (r: Option<i32>)
    requires
        enable_overlay && !is_second_arf ==> {
            &&& frame_width + TF_BLOCK_DIM <= i32::MAX
            &&& frame_height + TF_BLOCK_DIM <= i32::MAX
            &&& i32::MIN <= blocks_along(frame_height as int) * blocks_along(frame_width as int)
                <= i32::MAX
        },
    ensures
        match r {
            None => !enable_overlay || is_second_arf,
            Some(n) => enable_overlay && !is_second_arf && n == max_int(
                1,
                blocks_along(frame_height as int) * blocks_along(frame_width as int),
            ),
        },
{
    if !enable_overlay || is_second_arf {
        return None;
    }
    let mb_rows: i32 = get_num_blocks(frame_height, 64);
    let mb_cols: i32 = get_num_blocks(frame_width, 64);
    let n: i32 = mb_rows * mb_cols;
    if n < 1 {
        Some(1)
    } else {
        Some(n)
    }
}

/// A sample that can be written.
pub trait TfPixelMut: Copy {
    /// The sample that a value is narrowed to.
    spec fn of(v: u32) -> Self;

    fn from_value(v: u32) -> (r: Self)
        ensures
            r == Self::of(v),
    ;
}

impl TfPixelMut for u8 {
    open spec fn of(v: u32) -> u8 {
        (v % 256) as u8
    }

    fn from_value(v: u32) -> (r: Self) {
        (v % 256) as u8
    }
}

impl TfPixelMut for u16 {
    open spec fn of(v: u32) -> u16 {
        (v % 65536) as u16
    }

    fn from_value(v: u32) -> (r: Self) {
        (v % 65536) as u16
    }
}

/// A plane that can be written.
#[derive(Debug)]
pub struct TfPlaneMut<'a, P> {
    /// Samples from the plane's origin on.
    pub data: &'a mut [P],
    pub stride: usize,
}

/// A block of a frame, as a value.
pub open spec fn block_at(
    block_width: usize,
    block_height: usize,
    mb_row: usize,
    mb_col: usize,
    subsampling_x: [u32; 3],
    subsampling_y: [u32; 3],
) -> TfFilterParams {
    TfFilterParams {
        block_width,
        block_height,
        mb_row,
        mb_col,
        subsampling_x,
        subsampling_y,
        bd: 8,
        q_factor: 0,
        filter_strength: 0,
        wgt_calc_lvl: 0,
    }
}

impl TfFilterParams {
    /// A plane of the block lies in a plane of the frame.
    pub open spec fn plane_lies_in(self, len: int, stride: int, p: int) -> bool {
        &&& self.subsampling_x[p] < 31
        &&& self.subsampling_y[p] < 31
        &&& self.mb_row * self.rows(p) <= usize::MAX
        &&& 0 <= self.mb_row * self.rows(p) * stride <= usize::MAX
        &&& 0 <= self.mb_col * self.cols(p) <= usize::MAX
        &&& self.origin(p, stride) <= usize::MAX
        &&& block_fits(len - self.origin(p, stride), stride, self.rows(p), self.cols(p))
    }
}

/// Rows and columns of a plane of a block, and its start in the frame.
fn locate_plane(
    block_width: usize,
    block_height: usize,
    mb_row: usize,
    mb_col: usize,
    subsampling_x: &[u32; 3],
    subsampling_y: &[u32; 3],
    plane: usize,
    stride: usize,
    Ghost(len): Ghost<int>,
) -> (r: (usize, usize, usize))
    requires
        plane < 3,
        block_at(
            block_width,
            block_height,
            mb_row,
            mb_col,
            *subsampling_x,
            *subsampling_y,
        ).plane_lies_in(len, stride as int, plane as int),
    ensures
        ({
            let g = block_at(
                block_width,
                block_height,
                mb_row,
                mb_col,
                *subsampling_x,
                *subsampling_y,
            );
            &&& r.0 == g.rows(plane as int)
            &&& r.1 == g.cols(plane as int)
            &&& r.2 == g.origin(plane as int, stride as int)
        }),
{
    let ghost g = block_at(
        block_width,
        block_height,
        mb_row,
        mb_col,
        *subsampling_x,
        *subsampling_y,
    );
    let h: usize = block_height / pow2_usize(subsampling_y[plane]);
    let w: usize = block_width / pow2_usize(subsampling_x[plane]);
    assert(h == g.rows(plane as int) && w == g.cols(plane as int));
    let origin: usize = mb_row * h * stride + mb_col * w;
    (h, w, origin)
}

/// The value of the sample in row `y` and column `x`.
pub open spec fn level_at<P: TfPixel>(s: Seq<P>, stride: int, y: int, x: int) -> int {
    at(s, stride, y, x).level()
}

/// The sums of one sample after a value was blended in.
pub open spec fn cell_blended(
    accum0: Seq<u32>,
    count0: Seq<u16>,
    accum: Seq<u32>,
    count: Seq<u16>,
    k: int,
    weight: int,
    level: int,
) -> bool {
    &&& accum[k] == blended(accum0[k] as int, weight, level)
    &&& count[k] == counted(count0[k] as int, weight)
}

/// Blend a plane of the frame itself into the sums, at full weight.
#[verifier::spinoff_prover]
fn blend_self<P: TfPixel>(
    data: &[P],
    stride: usize,
    origin: usize,
    h: usize,
    w: usize,
    start: usize,
    accum: &mut [u32],
    count: &mut [u16],
)
    requires
        block_fits(data.len() - origin, stride as int, h as int, w as int),
        start + h * w <= old(accum).len(),
        start + h * w <= old(count).len(),
    ensures
        final(accum).len() == old(accum).len(),
        final(count).len() == old(count).len(),
        forall|y: int, x: int|
            0 <= y < h && 0 <= x < w ==> {
                let s = #[trigger] level_at(data@.skip(origin as int), stride as int, y, x);
                let k = start + y * w + x;
                cell_blended(old(accum)@, old(count)@, final(accum)@, final(count)@, k, 1000, s)
            },
        forall|k: int|
            0 <= k < final(accum).len() && !(start <= k < start + h * w)
                ==> #[trigger] final(accum)[k] == old(accum)[k],
        forall|k: int|
            0 <= k < final(count).len() && !(start <= k < start + h * w)
                ==> #[trigger] final(count)[k] == old(count)[k],
{
    let ghost (a0, c0) = (accum@, count@);
    let ghost (hh, ww, st) = (h as int, w as int, stride as int);
    let ghost d = data@.skip(origin as int);
    for y in 0..h
        invariant
            hh == h,
            ww == w,
            st == stride,
            d == data@.skip(origin as int),
            block_fits(data.len() - origin, st, hh, ww),
            start + h * w <= accum.len(),
            start + h * w <= count.len(),
            accum.len() == a0.len(),
            count.len() == c0.len(),
            forall|v: int, u: int|
                0 <= v < y && 0 <= u < ww ==> {
                    let s = #[trigger] level_at(d, st, v, u);
                    cell_blended(a0, c0, accum@, count@, start + v * ww + u, 1000, s)
                },
            forall|k: int|
                0 <= k < accum.len() && !(start <= k < start + y * ww) ==> #[trigger] accum[k]
                    == a0[k],
            forall|k: int|
                0 <= k < count.len() && !(start <= k < start + y * ww) ==> #[trigger] count[k]
                    == c0[k],
    {
        proof {
            assert(0 <= y * ww && y * ww + ww <= hh * ww) by (nonlinear_arith)
                requires
                    0 <= y,
                    y + 1 <= hh,
                    0 <= ww,
            ;
            assert((y + 1) * ww == y * ww + ww) by (nonlinear_arith);
            assert(row_end(st, ww, y as int) <= data.len() - origin);
            assert(0 <= y * st) by (nonlinear_arith)
                requires
                    0 <= y,
                    0 <= st,
            ;
        }
        for x in 0..w
            invariant
                hh == h,
                ww == w,
                st == stride,
                d == data@.skip(origin as int),
                y < h,
                0 <= y * ww,
                y * ww + ww <= hh * ww,
                0 <= y * st,
                y * st + ww <= data.len() - origin,
                start + h * w <= accum.len(),
                start + h * w <= count.len(),
                accum.len() == a0.len(),
                count.len() == c0.len(),
                forall|v: int, u: int|
                    (0 <= v < y && 0 <= u < ww) || (v == y && 0 <= u < x) ==> {
                        let s = #[trigger] level_at(d, st, v, u);
                        cell_blended(a0, c0, accum@, count@, start + v * ww + u, 1000, s)
                    },
                forall|k: int|
                    0 <= k < accum.len() && !(start <= k < start + y * ww + x)
                        ==> #[trigger] accum[k] == a0[k],
                forall|k: int|
                    0 <= k < count.len() && !(start <= k < start + y * ww + x)
                        ==> #[trigger] count[k] == c0[k],
        {
            let ghost (a1, c1) = (accum@, count@);
            let level: u32 = data[origin + (y * stride + x)].value();
            assert(level == level_at(d, st, y as int, x as int));
            let k: usize = start + (y * w + x);
            accum[k] = accum[k].wrapping_add(1000 * level);
            count[k] = count[k].wrapping_add(1000);
            proof {
                assert forall|v: int, u: int|
                    (0 <= v < y && 0 <= u < ww) || (v == y && 0 <= u < x + 1) implies {
                    let s = #[trigger] level_at(d, st, v, u);
                    cell_blended(a0, c0, accum@, count@, start + v * ww + u, 1000, s)
                } by {
                    lemma_cells_apart(ww, v, u, y as int, x as int);
                    if v != y || u != x {
                        let i = start + v * ww + u;
                        assert(i != k);
                        assert(v * ww + ww <= hh * ww) by (nonlinear_arith)
                            requires
                                v + 1 <= hh,
                                ww >= 0,
                        ;
                        assert(accum[i] == a1[i] && count[i] == c1[i]);
                        assert(cell_blended(a0, c0, a1, c1, i, 1000, level_at(d, st, v, u)));
                    }
                }
            }
        }
    }
}

impl TfFilterParams {
    /// What a plane of a frame holds in row `y` and column `x` of the block.
    pub open spec fn sample_of<P>(self, data: Seq<P>, stride: int, p: int, y: int, x: int) -> P {
        data[self.origin(p, stride) + y * stride + x]
    }

    /// The value of the frame where a sample of the block lies.
    pub open spec fn frame_level<P: TfPixel>(self, f: TfPlane<P>, p: int, y: int, x: int) -> int {
        self.sample_of(f.data@, f.stride as int, p, y, x).level()
    }

    /// The first `n` planes of the frame are blended into the sums at full
    /// weight, and nothing else is changed.
    pub open spec fn is_self_blended<P: TfPixel>(
        self,
        planes: Seq<TfPlane<P>>,
        n: int,
        accum0: Seq<u32>,
        count0: Seq<u16>,
        accum: Seq<u32>,
        count: Seq<u16>,
    ) -> bool {
        &&& accum.len() == accum0.len()
        &&& count.len() == count0.len()
        &&& forall|p: int, y: int, x: int|
            0 <= p < n && 0 <= y < self.rows(p) && 0 <= x < self.cols(p) ==> {
                let k = self.start(p) + y * self.cols(p) + x;
                let s = #[trigger] self.frame_level(planes[p], p, y, x);
                &&& accum[k] == blended(accum0[k] as int, TF_WEIGHT_SCALE as int, s)
                &&& count[k] == counted(count0[k] as int, TF_WEIGHT_SCALE as int)
            }
        &&& forall|k: int| self.start(n) <= k < accum.len() ==> #[trigger] accum[k] == accum0[k]
        &&& forall|k: int| self.start(n) <= k < count.len() ==> #[trigger] count[k] == count0[k]
    }
}

/// Blend the block of the frame itself into the sums, at full weight.
#[verifier::spinoff_prover]
pub fn tf_apply_temporal_filter_self<P: TfPixel>(
    planes: &[TfPlane<'_, P>],
    block_width: usize,
    block_height: usize,
    mb_row: usize,
    mb_col: usize,
    subsampling_x: &[u32; 3],
    subsampling_y: &[u32; 3],
    accum: &mut [u32],
    count: &mut [u16],
)
    requires
        planes.len() <= 3,
        ({
            let g = block_at(
                block_width,
                block_height,
                mb_row,
                mb_col,
                *subsampling_x,
                *subsampling_y,
            );
            &&& g.start(planes.len() as int) <= old(accum).len()
            &&& g.start(planes.len() as int) <= old(count).len()
            &&& forall|p: int|
                0 <= p < planes.len() ==> g.plane_lies_in(
                    (#[trigger] planes[p]).data@.len() as int,
                    planes[p].stride as int,
                    p,
                )
        }),
    ensures
        block_at(
            block_width,
            block_height,
            mb_row,
            mb_col,
            *subsampling_x,
            *subsampling_y,
        ).is_self_blended(
            planes@,
            planes.len() as int,
            old(accum)@,
            old(count)@,
            final(accum)@,
            final(count)@,
        ),
{
    let ghost g = block_at(
        block_width,
        block_height,
        mb_row,
        mb_col,
        *subsampling_x,
        *subsampling_y,
    );
    let ghost (a0, c0) = (accum@, count@);
    let mut plane_offset: usize = 0;
    for plane in 0..planes.len()
        invariant
            planes.len() <= 3,
            g == block_at(
                block_width,
                block_height,
                mb_row,
                mb_col,
                *subsampling_x,
                *subsampling_y,
            ),
            g.start(planes.len() as int) <= accum.len(),
            g.start(planes.len() as int) <= count.len(),
            forall|p: int|
                0 <= p < planes.len() ==> g.plane_lies_in(
                    (#[trigger] planes[p]).data@.len() as int,
                    planes[p].stride as int,
                    p,
                ),
            plane_offset == g.start(plane as int),
            g.is_self_blended(planes@, plane as int, a0, c0, accum@, count@),
    {
        let ghost p = plane as int;
        let frame = &planes[plane];
        proof {
            g.lemma_plane_sizes(p);
            g.lemma_starts(p, p + 1);
            g.lemma_starts(p + 1, planes.len() as int);
            assert(g.start(p + 1) == g.start(p) + g.rows(p) * g.cols(p));
        }
        let (h, w, origin) = locate_plane(
            block_width,
            block_height,
            mb_row,
            mb_col,
            subsampling_x,
            subsampling_y,
            plane,
            frame.stride,
            Ghost(frame.data@.len() as int),
        );
        let ghost (a1, c1) = (accum@, count@);
        blend_self(frame.data, frame.stride, origin, h, w, plane_offset, accum, count);
        proof {
            assert forall|q: int, y: int, x: int|
                0 <= q < p + 1 && 0 <= y < g.rows(q) && 0 <= x < g.cols(q) implies {
                let k = g.start(q) + y * g.cols(q) + x;
                let s = #[trigger] g.frame_level(planes@[q], q, y, x);
                &&& accum@[k] == blended(a0[k] as int, TF_WEIGHT_SCALE as int, s)
                &&& count@[k] == counted(c0[k] as int, TF_WEIGHT_SCALE as int)
            } by {
                let k = g.start(q) + y * g.cols(q) + x;
                let (hq, wq) = (g.rows(q), g.cols(q));
                assert(0 <= y * wq && y * wq + wq <= hq * wq) by (nonlinear_arith)
                    requires
                        0 <= y,
                        y + 1 <= hq,
                        0 <= wq,
                ;
                g.lemma_starts(q, q + 1);
                assert(g.start(q + 1) == g.start(q) + hq * wq);
                let s = g.frame_level(planes@[q], q, y, x);
                if q < p {
                    g.lemma_starts(q + 1, p);
                    assert(accum@[k] == a1[k] && count@[k] == c1[k]);
                } else {
                    let st = frame.stride as int;
                    assert(row_end(st, wq, y) <= frame.data@.len() - origin);
                    assert(0 <= y * st) by (nonlinear_arith)
                        requires
                            0 <= y,
                            0 <= st,
                    ;
                    assert(level_at(frame.data@.skip(origin as int), st, y, x) == s);
                    assert(a1[k] == a0[k] && c1[k] == c0[k]);
                }
            }
        }
        plane_offset = plane_offset + h * w;
    }
}

/// The sample that a weighted sum stands for: its quotient by the sum of
/// weights, to nearest.
pub open spec fn normalized(accum: u32, count: u16) -> u32 {
    ((accum + count as int / 2) / (count as int)) as u32
}

/// The quotient is defined.
pub open spec fn can_normalize(accum: u32, count: u16) -> bool {
    count != 0 && accum + count as int / 2 <= u32::MAX
}

/// No later row of a block reaches over the cell in row `y` and column `x`;
/// none does where rows are no longer than their distance.
pub open spec fn is_last_there(stride: int, h: int, w: int, y: int, x: int) -> bool {
    forall|v: int, u: int|
        y < v < h && 0 <= u < w ==> #[trigger] cell_index(stride, v, u) != cell_index(stride, y, x)
}

/// Rows that are no longer than their distance do not overlap.
pub proof fn law_rows_apart(stride: int, h: int, w: int, y: int, x: int)
    requires
        w <= stride,
        0 <= x < w,
    ensures
        is_last_there(stride, h, w, y, x),
{
    assert forall|v: int, u: int| y < v < h && 0 <= u < w implies #[trigger] cell_index(stride, v, u)
        != cell_index(stride, y, x) by {
        assert(v * stride >= y * stride + stride) by (nonlinear_arith)
            requires
                v >= y + 1,
                stride >= 0,
        ;
    }
}

/// A block of `out` holds the quotients of the sums from `start` on, and
/// nothing else of it is changed.
pub open spec fn holds_normalized<P: TfPixelMut>(
    before: Seq<P>,
    out: Seq<P>,
    stride: int,
    origin: int,
    h: int,
    w: int,
    start: int,
    accum: Seq<u32>,
    count: Seq<u16>,
) -> bool {
    &&& out.len() == before.len()
    &&& forall|y: int, x: int|
        0 <= y < h && 0 <= x < w && is_last_there(stride, h, w, y, x) ==> #[trigger] at(
            out.skip(origin),
            stride,
            y,
            x,
        ) == P::of(normalized(accum[start + y * w + x], count[start + y * w + x]))
    &&& forall|k: int|
        0 <= k < out.len() && (forall|y: int, x: int|
            0 <= y < h && 0 <= x < w ==> k != origin + #[trigger] cell_index(stride, y, x))
            ==> #[trigger] out[k] == before[k]
}

/// Position of row `y` and column `x` in rows `stride` apart.
pub open spec fn cell_index(stride: int, y: int, x: int) -> int {
    y * stride + x
}

/// Write the quotients of a plane.
#[verifier::spinoff_prover]
fn normalize_plane<P: TfPixelMut>(
    data: &mut [P],
    stride: usize,
    origin: usize,
    h: usize,
    w: usize,
    start: usize,
    accum: &[u32],
    count: &[u16],
)
    requires
        block_fits(old(data).len() - origin, stride as int, h as int, w as int),
        start + h * w <= accum.len(),
        start + h * w <= count.len(),
        forall|k: int|
            start <= k < start + h * w ==> #[trigger] can_normalize(accum[k], count[k]),
    ensures
        holds_normalized(
            old(data)@,
            final(data)@,
            stride as int,
            origin as int,
            h as int,
            w as int,
            start as int,
            accum@,
            count@,
        ),
{
    let ghost d0 = data@;
    let ghost (hh, ww, st, o, s0) = (
        h as int,
        w as int,
        stride as int,
        origin as int,
        start as int,
    );
    for y in 0..h
        invariant
            hh == h,
            ww == w,
            st == stride,
            o == origin,
            s0 == start,
            block_fits(data.len() - origin, st, hh, ww),
            start + h * w <= accum.len(),
            start + h * w <= count.len(),
            forall|k: int|
                start <= k < start + h * w ==> #[trigger] can_normalize(accum[k], count[k]),
            holds_normalized(d0, data@, st, o, y as int, ww, s0, accum@, count@),
    {
        proof {
            assert(0 <= y * ww && y * ww + ww <= hh * ww) by (nonlinear_arith)
                requires
                    0 <= y,
                    y + 1 <= hh,
                    0 <= ww,
            ;
            assert(row_end(st, ww, y as int) <= data.len() - origin);
            assert(0 <= y * st) by (nonlinear_arith)
                requires
                    0 <= y,
                    0 <= st,
            ;
        }
        let ghost d1 = data@;
        for x in 0..w
            invariant
                hh == h,
                ww == w,
                st == stride,
                o == origin,
                s0 == start,
                y < h,
                0 <= y * ww,
                y * ww + ww <= hh * ww,
                0 <= y * st,
                y * st + ww <= data.len() - origin,
                start + h * w <= accum.len(),
                start + h * w <= count.len(),
                forall|k: int|
                    start <= k < start + h * w ==> #[trigger] can_normalize(accum[k], count[k]),
                data.len() == d0.len(),
                d1.len() == d0.len(),
                holds_normalized(d0, d1, st, o, y as int, ww, s0, accum@, count@),
                forall|k: int|
                    0 <= k < data.len() && !(o + y * st <= k < o + y * st + x)
                        ==> #[trigger] data@[k] == d1[k],
                forall|u: int|
                    0 <= u < x ==> #[trigger] data@[o + y * st + u] == P::of(
                        normalized(accum@[s0 + y * ww + u], count@[s0 + y * ww + u]),
                    ),
        {
            let i: usize = start + (y * w + x);
            assert(can_normalize(accum[i as int], count[i as int]));
            let c: u16 = count[i];
            let rounding: u32 = (c / 2) as u32;
            let q: u32 = od_divu(accum[i] + rounding, c);
            assert(q == normalized(accum[i as int], c));
            let k: usize = origin + (y * stride + x);
            data[k] = P::from_value(q);
            assert forall|u: int| 0 <= u < x + 1 implies #[trigger] data@[o + y * st + u] == P::of(
                normalized(accum@[s0 + y * ww + u], count@[s0 + y * ww + u]),
            ) by {
                if u == x {
                    assert(s0 + y * ww + u == i);
                }
            }
        }
        proof {
            let d2 = data@;
            assert forall|v: int, u: int|
                0 <= v < y + 1 && 0 <= u < ww && is_last_there(st, y + 1, ww, v, u) implies #[trigger] at(
                d2.skip(o),
                st,
                v,
                u,
            ) == P::of(normalized(accum@[s0 + v * ww + u], count@[s0 + v * ww + u])) by {
                assert(row_end(st, ww, v) <= data.len() - origin);
                assert(0 <= v * st) by (nonlinear_arith)
                    requires
                        0 <= v,
                        0 <= st,
                ;
                if v < y {
                    assert forall|a: int, b: int| v < a < y && 0 <= b < ww implies #[trigger] cell_index(
                        st,
                        a,
                        b,
                    ) != cell_index(st, v, u) by {}
                    let k = v * st + u;
                    if y * st <= k < y * st + ww {
                        assert(cell_index(st, y as int, k - y * st) != cell_index(st, v, u));
                    }
                    assert(at(d1.skip(o), st, v, u) == P::of(
                        normalized(accum@[s0 + v * ww + u], count@[s0 + v * ww + u]),
                    ));
                    assert(d2[o + v * st + u] == d1[o + v * st + u]);
                } else {
                    assert(d2[o + y * st + u] == P::of(
                        normalized(accum@[s0 + y * ww + u], count@[s0 + y * ww + u]),
                    ));
                }
            }
            assert forall|k: int|
                0 <= k < d2.len() && (forall|v: int, u: int|
                    0 <= v < y + 1 && 0 <= u < ww ==> k != o + #[trigger] cell_index(st, v, u))
                implies #[trigger] d2[k] == d0[k] by {
                if o + y * st <= k < o + y * st + ww {
                    assert(k == o + cell_index(st, y as int, k - o - y * st));
                } else {
                    assert(d2[k] == d1[k]);
                }
            }
        }
    }
}

/// Write the block's quotients into a frame: the inverse of blending.
#[verifier::spinoff_prover]
pub fn tf_normalize_filtered_frame<P: TfPixelMut>(
    result: &mut [TfPlaneMut<'_, P>],
    block_width: usize,
    block_height: usize,
    mb_row: usize,
    mb_col: usize,
    subsampling_x: &[u32; 3],
    subsampling_y: &[u32; 3],
    accum: &[u32],
    count: &[u16],
)
    requires
        old(result).len() <= 3,
        ({
            let g = block_at(
                block_width,
                block_height,
                mb_row,
                mb_col,
                *subsampling_x,
                *subsampling_y,
            );
            &&& g.start(old(result).len() as int) <= accum.len()
            &&& g.start(old(result).len() as int) <= count.len()
            &&& forall|k: int|
                0 <= k < g.start(old(result).len() as int) ==> #[trigger] can_normalize(
                    accum[k],
                    count[k],
                )
            &&& forall|p: int|
                0 <= p < old(result).len() ==> g.plane_lies_in(
                    (#[trigger] old(result)[p]).data@.len() as int,
                    old(result)[p].stride as int,
                    p,
                )
        }),
    ensures
        final(result).len() == old(result).len(),
        ({
            let g = block_at(
                block_width,
                block_height,
                mb_row,
                mb_col,
                *subsampling_x,
                *subsampling_y,
            );
            forall|p: int|
                0 <= p < old(result).len() ==> {
                    &&& (#[trigger] final(result)[p]).stride == old(result)[p].stride
                    &&& holds_normalized(
                        old(result)[p].data@,
                        final(result)[p].data@,
                        old(result)[p].stride as int,
                        g.origin(p, old(result)[p].stride as int),
                        g.rows(p),
                        g.cols(p),
                        g.start(p),
                        accum@,
                        count@,
                    )
                }
        }),
{
    let ghost g = block_at(
        block_width,
        block_height,
        mb_row,
        mb_col,
        *subsampling_x,
        *subsampling_y,
    );
    let ghost r0 = result@;
    let n: usize = result.len();
    let mut plane_offset: usize = 0;
    for plane in 0..n
        invariant
            n <= 3,
            n == r0.len(),
            result.len() == n,
            g == block_at(
                block_width,
                block_height,
                mb_row,
                mb_col,
                *subsampling_x,
                *subsampling_y,
            ),
            g.start(n as int) <= accum.len(),
            g.start(n as int) <= count.len(),
            forall|k: int|
                0 <= k < g.start(n as int) ==> #[trigger] can_normalize(accum[k], count[k]),
            forall|p: int|
                0 <= p < n ==> g.plane_lies_in(
                    (#[trigger] r0[p]).data@.len() as int,
                    r0[p].stride as int,
                    p,
                ),
            plane_offset == g.start(plane as int),
            forall|p: int| 0 <= p < n ==> (#[trigger] result@[p]).stride == r0[p].stride,
            forall|p: int| plane <= p < n ==> (#[trigger] result@[p]).data@ == r0[p].data@,
            forall|p: int|
                0 <= p < plane ==> holds_normalized(
                    r0[p].data@,
                    (#[trigger] result@[p]).data@,
                    r0[p].stride as int,
                    g.origin(p, r0[p].stride as int),
                    g.rows(p),
                    g.cols(p),
                    g.start(p),
                    accum@,
                    count@,
                ),
    {
        let ghost p = plane as int;
        proof {
            g.lemma_plane_sizes(p);
            g.lemma_starts(p, p + 1);
            g.lemma_starts(p + 1, n as int);
            assert(g.start(p + 1) == g.start(p) + g.rows(p) * g.cols(p));
        }
        let ghost r1 = result@;
        let stride: usize = result[plane].stride;
        assert(r1[p].data@ == r0[p].data@);
        let (h, w, origin) = locate_plane(
            block_width,
            block_height,
            mb_row,
            mb_col,
            subsampling_x,
            subsampling_y,
            plane,
            stride,
            Ghost(r0[p].data@.len() as int),
        );
        normalize_plane(result[plane].data, stride, origin, h, w, plane_offset, accum, count);
        assert forall|q: int| 0 <= q < n && q != p implies (#[trigger] result@[q]) == r1[q] by {}
        plane_offset = plane_offset + h * w;
    }
}

/// What the frame itself is blended into normalizes back to it: with empty
/// sums before, the quotient of a sample's sums is the sample.
pub proof fn law_self_blend_round_trip(level: int)
    requires
        0 <= level <= 0xffff,
    ensures
        can_normalize(blended(0, 1000, level) as u32, counted(0, 1000) as u16),
        normalized(blended(0, 1000, level) as u32, counted(0, 1000) as u16) == level,
{
    let sum = 1000 * level;
    assert(blended(0, 1000, level) == sum) by {
        assert(0 <= sum < 0x1_0000_0000);
        assert(sum % 0x1_0000_0000 == sum);
    }
    assert(counted(0, 1000) == 1000);
    assert((sum + 500) / 1000 == level);
}

/// A sample of a frame that can be read and written.
pub trait TfSample: TfPixel + TfPixelMut {
    /// The value of a sample narrows back to it.
    proof fn law_kept(self)
        ensures
            0 <= self.level() <= 0xffff,
            Self::of(self.level() as u32) == self,
    ;
}

impl TfSample for u8 {
    proof fn law_kept(self) {
    }
}

impl TfSample for u16 {
    proof fn law_kept(self) {
    }
}

/// The place of a plane, a row and a column of the block among the sums.
proof fn lemma_sum_place(g: TfFilterParams, n: int, k: int) -> (r: (int, int, int))
    requires
        0 <= n <= 3,
        0 <= k < g.start(n),
    ensures
        0 <= r.0 < n,
        0 <= r.1 < g.rows(r.0),
        0 <= r.2 < g.cols(r.0),
        k == g.start(r.0) + r.1 * g.cols(r.0) + r.2,
    decreases n,
{
    let p = n - 1;
    g.lemma_plane_sizes(p);
    if k < g.start(p) {
        lemma_sum_place(g, p, k)
    } else {
        let (h, w) = (g.rows(p), g.cols(p));
        let i = k - g.start(p);
        assert(0 <= i < h * w);
        assert(w > 0) by (nonlinear_arith)
            requires
                0 <= i < h * w,
                0 <= w,
        ;
        assert(0 <= i / w < h && 0 <= i % w < w && i == (i / w) * w + i % w) by (nonlinear_arith)
            requires
                0 <= i < h * w,
                0 < w,
        ;
        (p, i / w, i % w)
    }
}

/// A block that was blended into empty sums at full weight can be normalized.
pub proof fn law_self_blended_can_normalize<P: TfSample>(
    g: TfFilterParams,
    planes: Seq<TfPlane<P>>,
    accum0: Seq<u32>,
    count0: Seq<u16>,
    accum: Seq<u32>,
    count: Seq<u16>,
)
    requires
        planes.len() <= 3,
        g.start(planes.len() as int) <= accum0.len(),
        g.start(planes.len() as int) <= count0.len(),
        forall|k: int| 0 <= k < accum0.len() ==> #[trigger] accum0[k] == 0,
        forall|k: int| 0 <= k < count0.len() ==> #[trigger] count0[k] == 0,
        g.is_self_blended(planes, planes.len() as int, accum0, count0, accum, count),
    ensures
        forall|k: int|
            0 <= k < g.start(planes.len() as int) ==> #[trigger] can_normalize(accum[k], count[k]),
{
    assert forall|k: int| 0 <= k < g.start(planes.len() as int) implies #[trigger] can_normalize(
        accum[k],
        count[k],
    ) by {
        let (p, y, x) = lemma_sum_place(g, planes.len() as int, k);
        let f = planes[p];
        let s = g.sample_of(f.data@, f.stride as int, p, y, x);
        s.law_kept();
        assert(g.frame_level(f, p, y, x) == s.level());
        law_self_blend_round_trip(s.level());
    }
}

/// A block of a frame that was blended into empty sums at full weight, and
/// whose sums were then normalized into other planes, is there again sample
/// for sample, and nothing else of those planes is changed. Rows of the result
/// must not overlap, or a later row writes over an earlier one.
pub proof fn law_self_blended_block_is_kept<P: TfSample>(
    g: TfFilterParams,
    planes: Seq<TfPlane<P>>,
    accum0: Seq<u32>,
    count0: Seq<u16>,
    accum: Seq<u32>,
    count: Seq<u16>,
    before: Seq<TfPlaneMut<P>>,
    after: Seq<TfPlaneMut<P>>,
)
    requires
        planes.len() <= 3,
        before.len() == planes.len(),
        after.len() == planes.len(),
        g.start(planes.len() as int) <= accum0.len(),
        g.start(planes.len() as int) <= count0.len(),
        forall|p: int|
            0 <= p < planes.len() ==> g.plane_lies_in(
                (#[trigger] before[p]).data@.len() as int,
                before[p].stride as int,
                p,
            ),
        forall|k: int| 0 <= k < accum0.len() ==> #[trigger] accum0[k] == 0,
        forall|k: int| 0 <= k < count0.len() ==> #[trigger] count0[k] == 0,
        g.is_self_blended(planes, planes.len() as int, accum0, count0, accum, count),
        forall|p: int|
            0 <= p < planes.len() ==> {
                &&& g.cols(p) <= (#[trigger] after[p]).stride == before[p].stride
                &&& holds_normalized(
                    before[p].data@,
                    after[p].data@,
                    before[p].stride as int,
                    g.origin(p, before[p].stride as int),
                    g.rows(p),
                    g.cols(p),
                    g.start(p),
                    accum,
                    count,
                )
            },
    ensures
        forall|p: int, y: int, x: int|
            0 <= p < planes.len() && 0 <= y < g.rows(p) && 0 <= x < g.cols(p)
                ==> #[trigger] g.sample_of(after[p].data@, after[p].stride as int, p, y, x)
                == g.sample_of(planes[p].data@, planes[p].stride as int, p, y, x),
        forall|p: int, k: int|
            0 <= p < planes.len() && 0 <= k < before[p].data@.len() && (forall|y: int, x: int|
                0 <= y < g.rows(p) && 0 <= x < g.cols(p) ==> k != g.origin(
                    p,
                    before[p].stride as int,
                ) + #[trigger] cell_index(before[p].stride as int, y, x))
                ==> #[trigger] after[p].data@[k] == before[p].data@[k],
{
    let n = planes.len() as int;
    assert forall|p: int, y: int, x: int|
        0 <= p < n && 0 <= y < g.rows(p) && 0 <= x < g.cols(p) implies #[trigger] g.sample_of(
        after[p].data@,
        after[p].stride as int,
        p,
        y,
        x,
    ) == g.sample_of(planes[p].data@, planes[p].stride as int, p, y, x) by {
        let (h, w, start) = (g.rows(p), g.cols(p), g.start(p));
        let st = before[p].stride as int;
        let origin = g.origin(p, st);
        let k = start + y * w + x;
        g.lemma_plane_sizes(p);
        g.lemma_starts(p, p + 1);
        g.lemma_starts(p + 1, n);
        assert(g.start(p + 1) == start + h * w);
        assert(0 <= y * w && y * w + w <= h * w && 0 <= y * st) by (nonlinear_arith)
            requires
                0 <= y,
                y + 1 <= h,
                0 <= w,
                0 <= st,
        ;
        let s = g.sample_of(planes[p].data@, planes[p].stride as int, p, y, x);
        s.law_kept();
        assert(g.frame_level(planes[p], p, y, x) == s.level());
        law_self_blend_round_trip(s.level());
        assert(accum0[k] == 0 && count0[k] == 0);
        assert(normalized(accum[k], count[k]) == s.level());
        assert(after[p].stride == st);
        law_rows_apart(st, h, w, y, x);
        assert(g.plane_lies_in(before[p].data@.len() as int, st, p));
        assert(row_end(st, w, y) <= before[p].data@.len() - origin);
        assert(at(after[p].data@.skip(origin), st, y, x) == after[p].data@[origin + y * st + x]);
    }
}

/// A sample blended with others stays between the smallest and the largest of
/// them, as long as the sums do not wrap.
pub proof fn law_normalized_within(accum: int, count: int, low: int, high: int)
    requires
        0 < count <= 0xffff,
        0 <= low <= high,
        low * count <= accum <= high * count,
        accum + count / 2 <= u32::MAX,
    ensures
        low <= normalized(accum as u32, count as u16) <= high,
{
    let q = (accum + count / 2) / count;
    assert(low <= q <= high) by (nonlinear_arith)
        requires
            q == (accum + count / 2) / count,
            low * count <= accum <= high * count,
            count > 0,
    ;
}

/// `f(0, 0) + .. + f(h - 1, w - 1)`.
pub open spec fn grid_sum(f: spec_fn(int, int) -> int, h: int, w: int) -> int
    decreases h,
{
    if h <= 0 {
        0
    } else {
        grid_sum(f, h - 1, w) + line_sum(|j: int| f(h - 1, j), w)
    }
}

/// `f(0) + .. + f(n - 1)`.
pub open spec fn line_sum(f: spec_fn(int) -> int, n: int) -> int
    decreases n,
{
    if n <= 0 {
        0
    } else {
        line_sum(f, n - 1) + f(n - 1)
    }
}

proof fn lemma_line_sum(f: spec_fn(int) -> int, p: spec_fn(int) -> int, off: int, n: int)
    requires
        forall|c: int| 0 <= c < n ==> #[trigger] f(c) == p(off + c),
    ensures
        line_sum(f, n) == crate::samples::row_total(p, off, n),
    decreases n,
{
    if n > 0 {
        lemma_line_sum(f, p, off, n - 1);
        assert(f(n - 1) == p(off + (n - 1)));
    }
}

proof fn lemma_grid_sum(
    f: spec_fn(int, int) -> int,
    p: spec_fn(int) -> int,
    off: int,
    stride: int,
    h: int,
    w: int,
)
    requires
        forall|r: int, c: int|
            0 <= r < h && 0 <= c < w ==> #[trigger] f(r, c) == p(off + r * stride + c),
    ensures
        grid_sum(f, h, w) == crate::samples::block_total(p, off, stride, w, h),
    decreases h,
{
    if h > 0 {
        lemma_grid_sum(f, p, off, stride, h - 1, w);
        let g = |j: int| f(h - 1, j);
        assert forall|c: int| 0 <= c < w implies #[trigger] g(c) == p(off + (h - 1) * stride + c) by {
            assert(f(h - 1, c) == p(off + (h - 1) * stride + c));
        }
        lemma_line_sum(g, p, off + (h - 1) * stride, w);
    }
}

/// A position moved by `d` within `0..n`, and no farther than its ends.
pub open spec fn moved(y: int, d: int, n: int) -> int {
    if y + d < 0 {
        0
    } else if y + d >= n {
        n - 1
    } else {
        y + d
    }
}

impl TfFilterParams {
    /// Squared difference of the frame and the predictor at a sample of the
    /// block.
    pub open spec fn sample_error<P: TfPixel>(
        self,
        planes: Seq<TfPlane<P>>,
        pred: Seq<P>,
        p: int,
        y: int,
        x: int,
    ) -> int {
        let a = self.sample_of(planes[p].data@, planes[p].stride as int, p, y, x).level();
        let b = pred[self.start(p) + y * self.cols(p) + x].level();
        (a - b) * (a - b)
    }

    /// The squared differences over the five by five samples around a sample;
    /// beyond an edge of the block its outermost samples count again.
    pub open spec fn window_error<P: TfPixel>(
        self,
        planes: Seq<TfPlane<P>>,
        pred: Seq<P>,
        p: int,
        y: int,
        x: int,
    ) -> int {
        grid_sum(
            |i: int, j: int|
                self.sample_error(
                    planes,
                    pred,
                    p,
                    moved(y, i - 2, self.rows(p)),
                    moved(x, j - 2, self.cols(p)),
                ),
            5,
            5,
        )
    }

    /// The squared differences of the luma samples that a chroma sample covers,
    /// modulo 2^32.
    pub open spec fn covered_error<P: TfPixel>(
        self,
        planes: Seq<TfPlane<P>>,
        pred: Seq<P>,
        p: int,
        y: int,
        x: int,
    ) -> int {
        let down = pow2i(self.subsampling_y[p] - self.subsampling_y[0]);
        let across = pow2i(self.subsampling_x[p] - self.subsampling_x[0]);
        grid_sum(
            |i: int, j: int|
                self.sample_error(planes, pred, 0, y * down + i, x * across + j),
            down,
            across,
        ) % 0x1_0000_0000
    }

    /// The differences that the weight of a sample goes by: those of its
    /// window, and for chroma those of the luma samples it covers, scaled to
    /// eight bits.
    pub open spec fn weighed_error<P: TfPixel>(
        self,
        planes: Seq<TfPlane<P>>,
        pred: Seq<P>,
        p: int,
        y: int,
        x: int,
    ) -> int {
        let sum = self.window_error(planes, pred, p, y, x) + if p > 0 {
            self.covered_error(planes, pred, p, y, x)
        } else {
            0
        };
        if self.bd > 8 {
            sum / pow2i(2 * (self.bd - 8))
        } else {
            sum
        }
    }

    proof fn lemma_error_cell<P: TfSample>(
        self,
        planes: Seq<TfPlane<P>>,
        pred: Seq<P>,
        p: int,
        y: int,
        x: int,
    )
        requires
            0 <= y < self.rows(p),
            0 <= x < self.cols(p),
        ensures
            0 <= y * self.cols(p) + x < self.errors(planes, pred, p).len(),
            at(self.errors(planes, pred, p), self.cols(p), y, x) == self.sample_error(
                planes,
                pred,
                p,
                y,
                x,
            ),
            0 <= self.sample_error(planes, pred, p, y, x) <= 0xfffe_0001,
    {
        let w = self.cols(p);
        let h = self.rows(p);
        let k = y * w + x;
        assert(0 <= k < h * w) by (nonlinear_arith)
            requires
                0 <= y < h,
                0 <= x < w,
                k == y * w + x,
        ;
        vstd::arithmetic::div_mod::lemma_fundamental_div_mod_converse(k, w, y, x);
        let a = self.sample_of(planes[p].data@, planes[p].stride as int, p, y, x);
        let b = pred[self.start(p) + k];
        a.law_kept();
        b.law_kept();
        let d = a.level() - b.level();
        assert(0 <= d * d <= 0xfffe_0001) by (nonlinear_arith)
            requires
                -0xffff <= d <= 0xffff,
        ;
        assert(self.start(p) + y * w + x == self.start(p) + k);
    }

    proof fn lemma_window_error<P: TfSample>(
        self,
        planes: Seq<TfPlane<P>>,
        pred: Seq<P>,
        p: int,
        y: int,
        x: int,
    )
        requires
            0 <= y < self.rows(p),
            0 <= x < self.cols(p),
        ensures
            window_sum(self.errors(planes, pred, p), self.rows(p), self.cols(p), y, x, 5)
                == self.window_error(planes, pred, p, y, x),
            0 <= self.window_error(planes, pred, p, y, x) <= 25 * 0xfffe_0001,
    {
        let (h, w) = (self.rows(p), self.cols(p));
        let sq = self.errors(planes, pred, p);
        let f = |i: int, j: int|
            self.sample_error(planes, pred, p, moved(y, i - 2, h), moved(x, j - 2, w));
        self.lemma_window_rows(planes, pred, p, y, x, 5);
        assert(grid_sum(f, 5, 5) == self.window_error(planes, pred, p, y, x));
    }

    proof fn lemma_window_rows<P: TfSample>(
        self,
        planes: Seq<TfPlane<P>>,
        pred: Seq<P>,
        p: int,
        y: int,
        x: int,
        m: int,
    )
        requires
            0 <= y < self.rows(p),
            0 <= x < self.cols(p),
            0 <= m <= 5,
        ensures
            ({
                let (h, w) = (self.rows(p), self.cols(p));
                let f = |i: int, j: int|
                    self.sample_error(planes, pred, p, moved(y, i - 2, h), moved(x, j - 2, w));
                &&& window_sum(self.errors(planes, pred, p), h, w, y, x, m) == grid_sum(f, m, 5)
                &&& 0 <= grid_sum(f, m, 5) <= m * 0x4_fff6_0005
            }),
        decreases m,
    {
        if m > 0 {
            let (h, w) = (self.rows(p), self.cols(p));
            let sq = self.errors(planes, pred, p);
            self.lemma_window_rows(planes, pred, p, y, x, m - 1);
            let v = clamped(y + m - 3, h);
            assert(v == moved(y, m - 1 - 2, h));
            let f = |i: int, j: int|
                self.sample_error(planes, pred, p, moved(y, i - 2, h), moved(x, j - 2, w));
            let g = |j: int| f(m - 1, j);
            self.lemma_window_row(planes, pred, p, v, x, g, 5);
            assert(grid_sum(f, m, 5) == grid_sum(f, m - 1, 5) + line_sum(g, 5));
        }
    }

    proof fn lemma_window_row<P: TfSample>(
        self,
        planes: Seq<TfPlane<P>>,
        pred: Seq<P>,
        p: int,
        v: int,
        x: int,
        g: spec_fn(int) -> int,
        n: int,
    )
        requires
            0 <= v < self.rows(p),
            0 <= x < self.cols(p),
            0 <= n,
            forall|j: int|
                0 <= j < n ==> #[trigger] g(j) == self.sample_error(
                    planes,
                    pred,
                    p,
                    v,
                    moved(x, j - 2, self.cols(p)),
                ),
        ensures
            window_row_sum(self.errors(planes, pred, p), self.cols(p), v, x, n) == line_sum(g, n),
            0 <= line_sum(g, n) <= n * 0xfffe_0001,
        decreases n,
    {
        if n > 0 {
            self.lemma_window_row(planes, pred, p, v, x, g, n - 1);
            let u = clamped(x + n - 3, self.cols(p));
            assert(u == moved(x, n - 1 - 2, self.cols(p)));
            self.lemma_error_cell(planes, pred, p, v, u);
            assert(g(n - 1) == self.sample_error(planes, pred, p, v, u));
        }
    }

    proof fn lemma_covered_error<P: TfSample>(
        self,
        planes: Seq<TfPlane<P>>,
        pred: Seq<P>,
        p: int,
        y: int,
        x: int,
    )
        requires
            1 <= p < 3,
            self.subsampling_x[p] == self.subsampling_x[1],
            self.subsampling_y[p] == self.subsampling_y[1],
            self.subsampling_x[0] <= self.subsampling_x[1],
            self.subsampling_y[0] <= self.subsampling_y[1],
            self.cols(1) * pow2i(self.subsampling_x[1] - self.subsampling_x[0]) == self.cols(0),
            0 <= y < self.rows(p),
            0 <= x < self.cols(p),
        ensures
            at(self.luma_errors(planes, pred, p), self.cols(p), y, x) == self.covered_error(
                planes,
                pred,
                p,
                y,
                x,
            ),
    {
        let (h, w) = (self.rows(1), self.cols(1));
        let (ey, ex) = (self.extra_y(1), self.extra_x(1));
        let (down, across) = (pow2i(ey), pow2i(ex));
        crate::arith::lemma_pow2i_pos(ey);
        crate::arith::lemma_pow2i_pos(ex);
        self.lemma_plane_sizes(1);
        self.lemma_plane_sizes(0);
        let k = y * w + x;
        assert(0 <= k < h * w) by (nonlinear_arith)
            requires
                0 <= y < h,
                0 <= x < w,
                k == y * w + x,
        ;
        vstd::arithmetic::div_mod::lemma_fundamental_div_mod_converse(k, w, y, x);
        let sq = self.errors(planes, pred, 0);
        let ww = self.cols(0);
        let off = y * down * ww + x * across;
        let f = |i: int, j: int|
            self.sample_error(planes, pred, 0, y * down + i, x * across + j);
        let q = |k: int| sq[k] as int;
        lemma_shrink_grow(
            self.block_height as int,
            self.subsampling_y[1] as int,
            self.subsampling_y[0] as int,
        );
        assert forall|r: int, c: int| 0 <= r < down && 0 <= c < across implies #[trigger] f(r, c)
            == q(off + r * ww + c) by {
            let (v, u) = (y * down + r, x * across + c);
            assert(0 <= v < h * down) by (nonlinear_arith)
                requires
                    0 <= y < h,
                    0 <= r < down,
                    v == y * down + r,
            ;
            assert(0 <= u < w * across) by (nonlinear_arith)
                requires
                    0 <= x < w,
                    0 <= c < across,
                    u == x * across + c,
            ;
            self.lemma_error_cell(planes, pred, 0, v, u);
            assert(off + r * ww + c == v * ww + u) by (nonlinear_arith)
                requires
                    off == y * down * ww + x * across,
                    v == y * down + r,
                    u == x * across + c,
            ;
        }
        lemma_grid_sum(f, q, off, ww, down, across);
        assert(self.luma_errors(planes, pred, p)[k] == wrap32(
            covered_luma(sq, w, ex, ey, k / w, k % w),
        ));
    }

    /// What a sample is blended with: the weight that the model gives for the
    /// squared differences of frame and predictor over the sample's window,
    /// and for chroma over the luma samples it covers as well, the number of
    /// those, and the sixteenth of the block that the sample lies in. The
    /// weight is added to the sum of weights, and the predicted sample as often
    /// to the sum of samples.
    pub proof fn law_sample_is_weighed_by_its_error<
        P: TfSample,
        W: Fn(usize, u64, i32, usize) -> i32,
    >(
        self,
        f: W,
        planes: Seq<TfPlane<P>>,
        pred: Seq<P>,
        accum0: Seq<u32>,
        count0: Seq<u16>,
        accum: Seq<u32>,
        count: Seq<u16>,
        p: int,
        y: int,
        x: int,
        m: i32,
    )
        requires
            is_weight_model(f, planes.len() as int),
            planes.len() <= 3,
            self.is_blended(f, planes, pred, planes.len() as int, accum0, count0, accum, count),
            0 <= p < planes.len(),
            self.plane_fits(planes[p].data@.len() as int, planes[p].stride as int, p),
            p > 0 ==> {
                &&& self.subsampling_x[p] == self.subsampling_x[1]
                &&& self.subsampling_y[p] == self.subsampling_y[1]
                &&& self.subsampling_x[0] <= self.subsampling_x[1]
                &&& self.subsampling_y[0] <= self.subsampling_y[1]
                &&& self.cols(1) * pow2i(self.subsampling_x[1] - self.subsampling_x[0])
                    == self.cols(0)
            },
            0 <= y < self.rows(p),
            0 <= x < self.cols(p),
            ({
                let (h, w) = (self.rows(p), self.cols(p));
                let number = if p == 0 {
                    25
                } else {
                    25 + pow2i(
                        self.subsampling_x[p] - self.subsampling_x[0] + self.subsampling_y[p]
                            - self.subsampling_y[0],
                    )
                };
                let part = sixteenth(4 * y / h, 4 * x / w);
                call_ensures(
                    f,
                    (
                        p as usize,
                        self.weighed_error(planes, pred, p, y, x) as u64,
                        number as i32,
                        part as usize,
                    ),
                    m,
                )
            }),
        ensures
            ({
                let k = self.start(p) + y * self.cols(p) + x;
                &&& count[k] == (count0[k] + m) % 0x1_0000
                &&& accum[k] == (accum0[k] + m * pred[k].level()) % 0x1_0000_0000
                &&& 0 <= self.weighed_error(planes, pred, p, y, x) <= u64::MAX
            }),
    {
        let (h, w) = (self.rows(p), self.cols(p));
        let e = self.weighed_error(planes, pred, p, y, x);
        self.lemma_window_error(planes, pred, p, y, x);
        let k = y * w + x;
        let luma = self.luma_errors(planes, pred, p);
        assert(0 <= k < h * w) by (nonlinear_arith)
            requires
                0 <= y < h,
                0 <= x < w,
                k == y * w + x,
        ;
        self.lemma_plane_sizes(p);
        if p > 0 {
            self.lemma_covered_error(planes, pred, p, y, x);
        } else {
            assert(luma[k] == 0);
        }
        let sum = window_sum(self.errors(planes, pred, p), h, w, y, x, 5) + at(luma, w, y, x);
        assert(e == error_at(
            self.errors(planes, pred, p),
            luma,
            h,
            w,
            self.bd as int,
            y,
            x,
        ));
        if self.bd > 8 {
            crate::arith::lemma_pow2i_pos(2 * (self.bd - 8));
            let q = pow2i(2 * (self.bd - 8));
            assert(0 <= sum / q <= sum) by (nonlinear_arith)
                requires
                    q >= 1,
                    sum >= 0,
            ;
        }
        lemma_sixteenth(h, w, y, x);
        law_sixteen_subblocks(h, w, y, x);
        assert(weighs_plane(f, p as usize));
        let part = subblock_of(h, w, y, x) as usize;
        let num = self.num_ref(p) as i32;
        let chosen = modelled_weight(f, p as usize, e as u64, num, part);
        assert(call_ensures(f, (p as usize, e as u64, num, part), m));
        assert(call_ensures(f, (p as usize, e as u64, num, part), chosen));
        assert(chosen == m);
        assert(self.weight(f, planes, pred, p, y, x) == m);
    }
}

/// The place of a sixteenth in row `r` and column `c` of four by four: the
/// quarters one after the other, and in each its quarters.
pub open spec fn sixteenth(r: int, c: int) -> int {
    (if r >= 2 {
        8int
    } else {
        0
    }) + (if c >= 2 {
        4int
    } else {
        0
    }) + (if r == 1 || r == 3 {
        2int
    } else {
        0
    }) + (if c == 1 || c == 3 {
        1int
    } else {
        0
    })
}

proof fn lemma_sixteenth(h: int, w: int, y: int, x: int)
    requires
        is_quartered(h),
        is_quartered(w),
        0 <= y < h,
        0 <= x < w,
    ensures
        sixteenth(4 * y / h, 4 * x / w) == subblock_of(h, w, y, x),
{
    lemma_quarter(h, y);
    lemma_quarter(w, x);
}

proof fn lemma_quarter(n: int, y: int)
    requires
        n > 0,
        n % 4 == 0,
        0 <= y < n,
    ensures
        0 <= 4 * y / n <= 3,
        y / (n / 2) == if 4 * y / n >= 2 {
            1int
        } else {
            0
        },
        (y % (n / 2)) / (n / 4) == if 4 * y / n == 1 || 4 * y / n == 3 {
            1int
        } else {
            0
        },
{
    let q = n / 4;
    assert(n == 4 * q && n / 2 == 2 * q);
    let t = if y < q {
        0int
    } else if y < 2 * q {
        1
    } else if y < 3 * q {
        2
    } else {
        3
    };
    assert(4 * y / n == t) by {
        vstd::arithmetic::div_mod::lemma_fundamental_div_mod_converse(4 * y, n, t, 4 * y - t * n);
    }
    let half = 2 * q;
    if y < half {
        vstd::arithmetic::div_mod::lemma_fundamental_div_mod_converse(y, half, 0, y);
    } else {
        vstd::arithmetic::div_mod::lemma_fundamental_div_mod_converse(y, half, 1, y - half);
    }
    let r = y % half;
    if r < q {
        vstd::arithmetic::div_mod::lemma_fundamental_div_mod_converse(r, q, 0, r);
    } else {
        vstd::arithmetic::div_mod::lemma_fundamental_div_mod_converse(r, q, 1, r - q);
    }
}

/// The luma samples under a chroma sample count, each once: two predictors that
/// differ in one of them alone are weighed by errors that differ by the
/// difference of its squared differences, as long as those of all covered
/// samples fit 32 bits and samples have eight.
pub proof fn law_covered_luma_counts<P: TfSample>(
    g: TfFilterParams,
    planes: Seq<TfPlane<P>>,
    pred: Seq<P>,
    other: Seq<P>,
    p: int,
    y: int,
    x: int,
    i: int,
    j: int,
)
    requires
        1 <= p < 3,
        g.bd <= 8,
        g.block_height * g.block_width <= usize::MAX,
        g.subsampling_x[0] <= g.subsampling_x[p] <= g.subsampling_x[0] + 1,
        g.subsampling_y[0] <= g.subsampling_y[p] <= g.subsampling_y[0] + 1,
        0 <= y < g.rows(p),
        0 <= x < g.cols(p),
        g.cols(p) * pow2i(g.subsampling_x[p] - g.subsampling_x[0]) == g.cols(0),
        0 <= i < pow2i(g.subsampling_y[p] - g.subsampling_y[0]),
        0 <= j < pow2i(g.subsampling_x[p] - g.subsampling_x[0]),
        ({
            let down = pow2i(g.subsampling_y[p] - g.subsampling_y[0]);
            let across = pow2i(g.subsampling_x[p] - g.subsampling_x[0]);
            forall|k: int|
                k != (y * down + i) * g.cols(0) + x * across + j ==> #[trigger] pred[k] == other[k]
        }),
        g.covers_little(planes, pred, p, y, x),
        g.covers_little(planes, other, p, y, x),
    ensures
        ({
            let down = pow2i(g.subsampling_y[p] - g.subsampling_y[0]);
            let across = pow2i(g.subsampling_x[p] - g.subsampling_x[0]);
            g.weighed_error(planes, pred, p, y, x) - g.weighed_error(planes, other, p, y, x)
                == g.sample_error(planes, pred, 0, y * down + i, x * across + j) - g.sample_error(
                planes,
                other,
                0,
                y * down + i,
                x * across + j,
            )
        }),
{
    let down = pow2i(g.subsampling_y[p] - g.subsampling_y[0]);
    let across = pow2i(g.subsampling_x[p] - g.subsampling_x[0]);
    let (w0, h0) = (g.cols(0), g.rows(0));
    reveal_with_fuel(pow2i, 3);
    assert(1 <= down <= 2 && 1 <= across <= 2);
    let a = |r: int, c: int| g.sample_error(planes, pred, 0, y * down + r, x * across + c);
    let b = |r: int, c: int| g.sample_error(planes, other, 0, y * down + r, x * across + c);
    let at0 = (y * down + i) * w0 + x * across + j;
    assert(g.start(0) == 0);
    assert forall|r: int, c: int|
        0 <= r < down && 0 <= c < across && (r != i || c != j) implies #[trigger] a(r, c) == b(
        r,
        c,
    ) by {
        let (v, u) = (y * down + r, x * across + c);
        let (v1, u1) = (y * down + i, x * across + j);
        assert(x * across + across <= w0) by (nonlinear_arith)
            requires
                x + 1 <= g.cols(p),
                across >= 1,
                g.cols(p) * across == w0,
        ;
        assert(0 <= x * across && 0 <= y * down) by (nonlinear_arith)
            requires
                0 <= x,
                0 <= y,
                across >= 1,
                down >= 1,
        ;
        lemma_cells_apart(w0, v, u, v1, u1);
        assert(g.start(0) + v * w0 + u != at0);
        assert(pred[g.start(0) + v * w0 + u] == other[g.start(0) + v * w0 + u]);
    }
    reveal_with_fuel(grid_sum, 3);
    reveal_with_fuel(line_sum, 3);
    assert(grid_sum(a, down, across) - grid_sum(b, down, across) == a(i, j) - b(i, j));
    // The window lies in the plane's own part of the predictor.
    let f = |r: int, c: int|
        g.sample_error(planes, pred, p, moved(y, r - 2, g.rows(p)), moved(x, c - 2, g.cols(p)));
    let q = |r: int, c: int|
        g.sample_error(planes, other, p, moved(y, r - 2, g.rows(p)), moved(x, c - 2, g.cols(p)));
    g.lemma_plane_sizes(0);
    g.lemma_starts(1, p);
    assert(g.start(1) == h0 * w0) by {
        assert(g.start(1) == g.start(0) + g.rows(0) * g.cols(0));
    }
    assert(at0 < h0 * w0) by {
        lemma_shrink_grow(
            g.block_height as int,
            g.subsampling_y[p] as int,
            g.subsampling_y[0] as int,
        );
        let hp = g.rows(p);
        assert(y * down + down <= hp * down) by (nonlinear_arith)
            requires
                y + 1 <= hp,
                down >= 1,
        ;
        assert(x * across + across <= w0) by (nonlinear_arith)
            requires
                x + 1 <= g.cols(p),
                across >= 1,
                g.cols(p) * across == w0,
        ;
        let v1 = y * down + i;
        assert(v1 * w0 + w0 <= h0 * w0) by (nonlinear_arith)
            requires
                v1 + 1 <= h0,
                w0 >= 0,
        ;
    }
    assert forall|r: int, c: int| 0 <= r < 5 && 0 <= c < 5 implies #[trigger] f(r, c) == q(r, c) by {
        let (v, u) = (moved(y, r - 2, g.rows(p)), moved(x, c - 2, g.cols(p)));
        let wp = g.cols(p);
        assert(0 <= v * wp) by (nonlinear_arith)
            requires
                0 <= v,
                0 <= wp,
        ;
        assert(pred[g.start(p) + v * wp + u] == other[g.start(p) + v * wp + u]);
    }
    lemma_grid_same(f, q, 5, 5);
}

proof fn lemma_grid_same(
    f: spec_fn(int, int) -> int,
    q: spec_fn(int, int) -> int,
    h: int,
    w: int,
)
    requires
        forall|r: int, c: int| 0 <= r < h && 0 <= c < w ==> #[trigger] f(r, c) == q(r, c),
    ensures
        grid_sum(f, h, w) == grid_sum(q, h, w),
    decreases h,
{
    if h > 0 {
        lemma_grid_same(f, q, h - 1, w);
        let a = |j: int| f(h - 1, j);
        let b = |j: int| q(h - 1, j);
        assert forall|c: int| 0 <= c < w implies #[trigger] a(c) == b(c) by {
            assert(f(h - 1, c) == q(h - 1, c));
        }
        lemma_line_same(a, b, w);
    }
}

proof fn lemma_line_same(f: spec_fn(int) -> int, q: spec_fn(int) -> int, n: int)
    requires
        forall|c: int| 0 <= c < n ==> #[trigger] f(c) == q(c),
    ensures
        line_sum(f, n) == line_sum(q, n),
    decreases n,
{
    if n > 0 {
        lemma_line_same(f, q, n - 1);
        assert(f(n - 1) == q(n - 1));
    }
}

impl TfFilterParams {
    /// The squared differences of the luma samples that a chroma sample covers
    /// fit 32 bits.
    pub open spec fn covers_little<P: TfPixel>(
        self,
        planes: Seq<TfPlane<P>>,
        pred: Seq<P>,
        p: int,
        y: int,
        x: int,
    ) -> bool {
        let down = pow2i(self.subsampling_y[p] - self.subsampling_y[0]);
        let across = pow2i(self.subsampling_x[p] - self.subsampling_x[0]);
        0 <= grid_sum(
            |i: int, j: int|
                self.sample_error(planes, pred, 0, y * down + i, x * across + j),
            down,
            across,
        ) < 0x1_0000_0000
    }
}

/// A quarter of a block takes the vector and the error of its own search where
/// that does about as well as the searches over its four parts: its error is at
/// most 16/15 of their mean and they are less than 48 apart, or at most 16/14
/// of it and they are less than 24 apart. Otherwise its parts stay as they are.
pub proof fn law_quarter_is_merged_where_parts_agree(
    mids: Seq<i32>,
    subs: Seq<i32>,
    mid_mvs: Seq<(i16, i16)>,
    sub_mvs: Seq<(i16, i16)>,
    idx: int,
    t: int,
    low: int,
    high: int,
)
    requires
        0 <= idx < 4,
        0 <= t < 4,
        forall|k: int| 4 * idx <= k < 4 * idx + 4 ==> low <= #[trigger] subs[k] <= high,
        exists|k: int| 4 * idx <= k < 4 * idx + 4 && #[trigger] subs[k] == low,
        exists|k: int| 4 * idx <= k < 4 * idx + 4 && #[trigger] subs[k] == high,
    ensures
        ({
            let a = 4 * idx;
            let sum = subs[a] + subs[a + 1] + subs[a + 2] + subs[a + 3];
            let mid = mids[idx] as int;
            let merged = (15 * mid <= 4 * sum && high - low < 48) || (14 * mid <= 4 * sum && high
                - low < 24);
            &&& quads_merged(mids, subs)[a + t] == if merged {
                mids[idx]
            } else {
                subs[a + t]
            }
            &&& quad_mvs_merged(mids, subs, mid_mvs, sub_mvs)[a + t] == if merged {
                mid_mvs[idx]
            } else {
                sub_mvs[a + t]
            }
        }),
{
    let a = 4 * idx;
    assert((a + t) / 4 == idx);
    reveal_with_fuel(mse_sum, 5);
    reveal_with_fuel(mse_max, 5);
    reveal_with_fuel(mse_min, 5);
    assert(low <= subs[a] <= high && low <= subs[a + 1] <= high && low <= subs[a + 2] <= high && low
        <= subs[a + 3] <= high);
    let k = choose|k: int| 4 * idx <= k < 4 * idx + 4 && #[trigger] subs[k] == low;
    let l = choose|k: int| 4 * idx <= k < 4 * idx + 4 && #[trigger] subs[k] == high;
    assert(k == a || k == a + 1 || k == a + 2 || k == a + 3);
    assert(l == a || l == a + 1 || l == a + 2 || l == a + 3);
    assert(mse_max(subs, a, 4) == high);
    assert(mse_min(subs, a, 4) == low);
    assert(mse_sum(subs, a, 4) == subs[a] + subs[a + 1] + subs[a + 2] + subs[a + 3]);
}

proof fn lemma_extremes(s: Seq<i32>, n: int, low: int, high: int)
    requires
        1 <= n <= s.len(),
        forall|k: int| 0 <= k < n ==> low <= #[trigger] s[k] <= high,
    ensures
        low <= mse_min(s, 0, n) <= mse_max(s, 0, n) <= high,
        forall|k: int| 0 <= k < n ==> mse_min(s, 0, n) <= #[trigger] s[k] <= mse_max(s, 0, n),
    decreases n,
{
    if n > 1 {
        lemma_extremes(s, n - 1, low, high);
    }
}

/// A whole block is merged where its parts agree, in proportion to their
/// errors: its error is at most 16/15 of their mean and they are less than three
/// sixteenths of their sum apart, or at most 16/14 of it and they are less than
/// an eighth of the sum apart.
pub proof fn law_block_is_merged_where_parts_agree(
    mses: Seq<i32>,
    mse: int,
    low: int,
    high: int,
)
    requires
        mses.len() == 16,
        forall|k: int| 0 <= k < 16 ==> low <= #[trigger] mses[k] <= high,
        exists|k: int| 0 <= k < 16 && #[trigger] mses[k] == low,
        exists|k: int| 0 <= k < 16 && #[trigger] mses[k] == high,
    ensures
        ({
            let m = |k: int| mses[k] as int;
            let sum = m(0) + m(1) + m(2) + m(3) + m(4) + m(5) + m(6) + m(7) + m(8) + m(9) + m(10)
                + m(11) + m(12) + m(13) + m(14) + m(15);
            block_merges(mses, mse) == ((15 * mse <= sum && 16 * (high - low) < 3 * sum) || (14 * mse
                <= sum && 8 * (high - low) < sum))
        }),
{
    lemma_extremes(mses, 16, low, high);
    reveal_with_fuel(mse_sum, 17);
    let k = choose|k: int| 0 <= k < 16 && #[trigger] mses[k] == low;
    let l = choose|k: int| 0 <= k < 16 && #[trigger] mses[k] == high;
    assert(mse_min(mses, 0, 16) <= mses[k] && mses[l] <= mse_max(mses, 0, 16));
}

/// A slope has a gradient in every direction and no noise: where the samples
/// around a position rise by `b` from row to row and by `c` from column to
/// column, the gradient is eight times the two together and the Laplacian 0.
pub proof fn law_slope_is_no_noise<P: TfPixel>(
    s: Seq<P>,
    stride: int,
    y: int,
    x: int,
    a: int,
    b: int,
    c: int,
)
    requires
        forall|i: int, j: int|
            -1 <= i <= 1 && -1 <= j <= 1 ==> #[trigger] near(s, stride, y, x, i, j) == a + b * i + c
                * j,
    ensures
        gradient(s, stride, y, x) == 8 * (abs_int(b) + abs_int(c)),
        laplacian(s, stride, y, x) == 0,
{
    assert(b * (-1) == -b && c * (-1) == -c && b * 0 == 0 && c * 0 == 0 && b * 1 == b && c * 1 == c)
        by (nonlinear_arith);
    assert(near(s, stride, y, x, -1, -1) == a - b - c);
    assert(near(s, stride, y, x, -1, 0) == a - b);
    assert(near(s, stride, y, x, -1, 1) == a - b + c);
    assert(near(s, stride, y, x, 0, -1) == a - c);
    assert(near(s, stride, y, x, 0, 0) == a);
    assert(near(s, stride, y, x, 0, 1) == a + c);
    assert(near(s, stride, y, x, 1, -1) == a + b - c);
    assert(near(s, stride, y, x, 1, 0) == a + b);
    assert(near(s, stride, y, x, 1, 1) == a + b + c);
}

/// A sample that differs from its surroundings by `d` is noise, most of it
/// where the sample lies and less beside it: four, two and one times `d` at the
/// sample, next to it, and at its corners.
pub proof fn law_lone_sample_is_noise<P: TfPixel>(
    s: Seq<P>,
    stride: int,
    y: int,
    x: int,
    i: int,
    j: int,
    a: int,
    d: int,
)
    requires
        -1 <= i <= 1,
        -1 <= j <= 1,
        forall|k: int, l: int|
            -1 <= k <= 1 && -1 <= l <= 1 ==> #[trigger] near(s, stride, y, x, k, l) == a + if k == i
                && l == j {
                d
            } else {
                0
            },
    ensures
        laplacian(s, stride, y, x) == if i == 0 && j == 0 {
            4 * abs_int(d)
        } else if i == 0 || j == 0 {
            2 * abs_int(d)
        } else {
            abs_int(d)
        },
        i == 0 && j == 0 ==> gradient(s, stride, y, x) == 0,
{
    let f = |k: int, l: int|
        a + if k == i && l == j {
            d
        } else {
            0
        };
    assert(near(s, stride, y, x, -1, -1) == f(-1, -1));
    assert(near(s, stride, y, x, -1, 0) == f(-1, 0));
    assert(near(s, stride, y, x, -1, 1) == f(-1, 1));
    assert(near(s, stride, y, x, 0, -1) == f(0, -1));
    assert(near(s, stride, y, x, 0, 0) == f(0, 0));
    assert(near(s, stride, y, x, 0, 1) == f(0, 1));
    assert(near(s, stride, y, x, 1, -1) == f(1, -1));
    assert(near(s, stride, y, x, 1, 0) == f(1, 0));
    assert(near(s, stride, y, x, 1, 1) == f(1, 1));
}

proof fn lemma_scaled_near<P: TfPixel, Q: TfPixel>(
    s: Seq<P>,
    t: Seq<Q>,
    stride: int,
    y: int,
    x: int,
    k: int,
)
    requires
        0 <= k,
        forall|i: int, j: int|
            -1 <= i <= 1 && -1 <= j <= 1 ==> #[trigger] near(t, stride, y, x, i, j) == pow2i(k)
                * near(s, stride, y, x, i, j),
    ensures
        round_shift(gradient(t, stride, y, x), k) == gradient(s, stride, y, x),
        round_shift(laplacian(t, stride, y, x), k) == laplacian(s, stride, y, x),
{
    let p = pow2i(k);
    crate::arith::lemma_pow2i_pos(k);
    let a = |i: int, j: int| near(s, stride, y, x, i, j);
    let b = |i: int, j: int| near(t, stride, y, x, i, j);
    assert(b(-1, -1) == p * a(-1, -1) && b(-1, 0) == p * a(-1, 0) && b(-1, 1) == p * a(-1, 1) && b(
        0,
        -1,
    ) == p * a(0, -1) && b(0, 0) == p * a(0, 0) && b(0, 1) == p * a(0, 1) && b(1, -1) == p * a(1, -1)
        && b(1, 0) == p * a(1, 0) && b(1, 1) == p * a(1, 1)) by {
        assert(near(t, stride, y, x, -1, -1) == p * near(s, stride, y, x, -1, -1));
        assert(near(t, stride, y, x, -1, 0) == p * near(s, stride, y, x, -1, 0));
        assert(near(t, stride, y, x, -1, 1) == p * near(s, stride, y, x, -1, 1));
        assert(near(t, stride, y, x, 0, -1) == p * near(s, stride, y, x, 0, -1));
        assert(near(t, stride, y, x, 0, 0) == p * near(s, stride, y, x, 0, 0));
        assert(near(t, stride, y, x, 0, 1) == p * near(s, stride, y, x, 0, 1));
        assert(near(t, stride, y, x, 1, -1) == p * near(s, stride, y, x, 1, -1));
        assert(near(t, stride, y, x, 1, 0) == p * near(s, stride, y, x, 1, 0));
        assert(near(t, stride, y, x, 1, 1) == p * near(s, stride, y, x, 1, 1));
    }
    let gx = (a(-1, -1) - a(-1, 1)) + (a(1, -1) - a(1, 1)) + 2 * (a(0, -1) - a(0, 1));
    let gy = (a(-1, -1) - a(1, -1)) + (a(-1, 1) - a(1, 1)) + 2 * (a(-1, 0) - a(1, 0));
    let l = 4 * a(0, 0) - 2 * (a(-1, 0) + a(1, 0) + a(0, -1) + a(0, 1)) + (a(-1, -1) + a(-1, 1) + a(
        1,
        -1,
    ) + a(1, 1));
    let hx = (b(-1, -1) - b(-1, 1)) + (b(1, -1) - b(1, 1)) + 2 * (b(0, -1) - b(0, 1));
    let hy = (b(-1, -1) - b(1, -1)) + (b(-1, 1) - b(1, 1)) + 2 * (b(-1, 0) - b(1, 0));
    let m = 4 * b(0, 0) - 2 * (b(-1, 0) + b(1, 0) + b(0, -1) + b(0, 1)) + (b(-1, -1) + b(-1, 1) + b(
        1,
        -1,
    ) + b(1, 1));
    lemma_scaled_nine(
        p,
        a(-1, -1),
        a(-1, 0),
        a(-1, 1),
        a(0, -1),
        a(0, 0),
        a(0, 1),
        a(1, -1),
        a(1, 0),
        a(1, 1),
    );
    assert(hx == p * gx && hy == p * gy && m == p * l);
    assert(abs_int(hx) == p * abs_int(gx) && abs_int(hy) == p * abs_int(gy) && abs_int(m) == p
        * abs_int(l)) by {
        lemma_scaled_abs(p, gx);
        lemma_scaled_abs(p, gy);
        lemma_scaled_abs(p, l);
    }
    let g = abs_int(gx) + abs_int(gy);
    assert(p * abs_int(gx) + p * abs_int(gy) == p * g) by (nonlinear_arith)
        requires
            g == abs_int(gx) + abs_int(gy),
    ;
    assert(gradient(t, stride, y, x) == p * g);
    assert(laplacian(t, stride, y, x) == p * abs_int(l));
    lemma_round_back(p, g);
    lemma_round_back(p, abs_int(l));
}

proof fn lemma_scaled_nine(
    p: int,
    a: int,
    b: int,
    c: int,
    d: int,
    e: int,
    f: int,
    g: int,
    h: int,
    i: int,
)
    ensures
        (p * a - p * c) + (p * g - p * i) + 2 * (p * d - p * f) == p * ((a - c) + (g - i) + 2 * (d
            - f)),
        (p * a - p * g) + (p * c - p * i) + 2 * (p * b - p * h) == p * ((a - g) + (c - i) + 2 * (b
            - h)),
        4 * (p * e) - 2 * (p * b + p * h + p * d + p * f) + (p * a + p * c + p * g + p * i) == p * (4
            * e - 2 * (b + h + d + f) + (a + c + g + i)),
{
    assert((p * a - p * c) + (p * g - p * i) + 2 * (p * d - p * f) == p * ((a - c) + (g - i) + 2 * (d
        - f))) by (nonlinear_arith);
    assert((p * a - p * g) + (p * c - p * i) + 2 * (p * b - p * h) == p * ((a - g) + (c - i) + 2 * (b
        - h))) by (nonlinear_arith);
    assert(4 * (p * e) - 2 * (p * b + p * h + p * d + p * f) + (p * a + p * c + p * g + p * i) == p
        * (4 * e - 2 * (b + h + d + f) + (a + c + g + i))) by (nonlinear_arith);
}

proof fn lemma_scaled_abs(p: int, v: int)
    requires
        p >= 1,
    ensures
        abs_int(p * v) == p * abs_int(v),
{
    assert(v < 0 ==> p * v < 0 && -(p * v) == p * (-v)) by (nonlinear_arith)
        requires
            p >= 1,
    ;
    assert(v >= 0 ==> p * v >= 0) by (nonlinear_arith)
        requires
            p >= 1,
    ;
}

proof fn lemma_round_back(p: int, v: int)
    requires
        p >= 1,
    ensures
        (p * v + p / 2) / p == v,
{
    assert(p * v == v * p) by (nonlinear_arith);
    vstd::arithmetic::div_mod::lemma_fundamental_div_mod_converse(p * v + p / 2, p, v, p / 2);
}

/// Noise is measured alike at every depth: a plane whose samples are those of
/// another times `2^k` has, at a shift of `k`, as many smooth samples as the
/// other at none, and as much noise.
pub proof fn law_depths_have_the_same_noise<P: TfPixel, Q: TfPixel>(
    low: NoiseCase<P>,
    high: NoiseCase<Q>,
    m: int,
    n: int,
)
    requires
        low.shift == 0,
        high.shift >= 0,
        low.stride == high.stride,
        low.edge_thresh == high.edge_thresh,
        forall|y: int, x: int, i: int, j: int|
            #![trigger near(high.src, high.stride, y, x, i, j)]
            1 <= y <= m && 1 <= x <= n && -1 <= i <= 1 && -1 <= j <= 1 ==> near(
                high.src,
                high.stride,
                y,
                x,
                i,
                j,
            ) == pow2i(high.shift) * near(low.src, low.stride, y, x, i, j),
    ensures
        high.count(m, n) == low.count(m, n),
        high.sum(m, n) == low.sum(m, n),
    decreases m,
{
    if m > 0 {
        law_depths_have_the_same_noise(low, high, m - 1, n);
        lemma_row_noise(low, high, m, n);
    }
}

proof fn lemma_row_noise<P: TfPixel, Q: TfPixel>(
    low: NoiseCase<P>,
    high: NoiseCase<Q>,
    y: int,
    n: int,
)
    requires
        low.shift == 0,
        high.shift >= 0,
        low.stride == high.stride,
        low.edge_thresh == high.edge_thresh,
        forall|x: int, i: int, j: int|
            #![trigger near(high.src, high.stride, y, x, i, j)]
            1 <= x <= n && -1 <= i <= 1 && -1 <= j <= 1 ==> near(
                high.src,
                high.stride,
                y,
                x,
                i,
                j,
            ) == pow2i(high.shift) * near(low.src, low.stride, y, x, i, j),
    ensures
        high.row_count(y, n) == low.row_count(y, n),
        high.row_sum(y, n) == low.row_sum(y, n),
    decreases n,
{
    if n > 0 {
        lemma_row_noise(low, high, y, n - 1);
        lemma_scaled_near(low.src, high.src, low.stride, y, n, high.shift);
        let (g, l) = (
            gradient(low.src, low.stride, y, n),
            laplacian(low.src, low.stride, y, n),
        );
        assert(pow2i(0) == 1);
        assert(round_shift(g, 0) == g && round_shift(l, 0) == l);
    }
}

impl TfFilterParams {
    /// Where a block lies: its sample in row `y` and column `x` is that many
    /// rows and columns after the block's corner in the plane, which is as many
    /// whole blocks down and across as the block's position says. A plane has
    /// the block's rows and columns halved as often as it is subsampled, and
    /// its samples follow those of the planes before it in the sums.
    pub proof fn law_block_lies_at_its_position<P>(
        self,
        data: Seq<P>,
        stride: int,
        p: int,
        y: int,
        x: int,
    )
        requires
            0 <= p < 3,
        ensures
            self.sample_of(data, stride, p, y, x) == data[(self.mb_row * self.rows(p) + y) * stride
                + self.mb_col * self.cols(p) + x],
            ({
                let (v, u) = (
                    pow2i(self.subsampling_y[p] as int),
                    pow2i(self.subsampling_x[p] as int),
                );
                &&& self.rows(p) * v <= self.block_height < self.rows(p) * v + v
                &&& self.cols(p) * u <= self.block_width < self.cols(p) * u + u
            }),
            self.start(0) == 0,
            self.start(p + 1) == self.start(p) + self.rows(p) * self.cols(p),
    {
        let r = self.mb_row * self.rows(p);
        assert((r + y) * stride == r * stride + y * stride) by (nonlinear_arith);
        let (v, u) = (pow2i(self.subsampling_y[p] as int), pow2i(self.subsampling_x[p] as int));
        crate::arith::lemma_pow2i_pos(self.subsampling_y[p] as int);
        crate::arith::lemma_pow2i_pos(self.subsampling_x[p] as int);
        let (bh, bw) = (self.block_height as int, self.block_width as int);
        let (h, w) = (bh / v, bw / u);
        assert(h * v <= bh < h * v + v) by (nonlinear_arith)
            requires
                h == bh / v,
                v >= 1,
        ;
        assert(w * u <= bw < w * u + u) by (nonlinear_arith)
            requires
                w == bw / u,
                u >= 1,
        ;
    }
}

} // verus!
