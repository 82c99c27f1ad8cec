//! Inter-frame side of variance-based partitioning: the source-against-
//! reference leaf statistics, the low-temporal-variance flags and the
//! superblock-level shortcuts.

use vstd::prelude::*;

use crate::block::{
    BLOCK_128X128, BLOCK_128X64, BLOCK_16X16, BLOCK_16X32, BLOCK_32X16, BLOCK_32X32, BLOCK_32X64,
    BLOCK_64X128, BLOCK_64X32, BLOCK_64X64,
};

use crate::samples::{abs_int, block_total, fold_max, fold_min, row_total};

verus! {

/// How much the source moved since the last frame.
#[derive(Clone, Copy, PartialEq, Eq, PartialOrd, Ord, Debug, Structural)]
pub enum SourceSad {
    /// Nothing moved at all.
    Zero,
    VeryLow,
    Low,
    Med,
    High,
}

impl SourceSad {
    /// Position on the scale, from 0 for no motion.
    pub open spec fn rank(self) -> int {
        match self {
            SourceSad::Zero => 0,
            SourceSad::VeryLow => 1,
            SourceSad::Low => 2,
            SourceSad::Med => 3,
            SourceSad::High => 4,
        }
    }
}

/// Sample offset of quadrant `idx` of a 16x16 block.
pub open spec fn quad_x(idx: int) -> int {
    8 * (idx % 2)
}

pub open spec fn quad_y(idx: int) -> int {
    8 * (idx / 2)
}

/// The 8x8 quadrant `idx` of the 16x16 block at `(x16, y16)` starts inside the
/// visible frame.
pub open spec fn quad_inside(x16: int, y16: int, wide: int, high: int, idx: int) -> bool {
    x16 + quad_x(idx) < wide && y16 + quad_y(idx) < high
}

/// Whether all four 8x8 quadrants of a 16x16 block start inside the visible
/// frame. Only the top-left sample of each counts.
#[must_use]
pub fn all_blks_inside(
    x16_idx: usize,
    y16_idx: usize,
    pixels_wide: usize,
    pixels_high: usize,
) -> (r: bool)
    requires
        x16_idx + 8 <= usize::MAX,
        y16_idx + 8 <= usize::MAX,
    ensures
        r == (forall|idx: int|
            0 <= idx < 4 ==> #[trigger] quad_inside(
                x16_idx as int,
                y16_idx as int,
                pixels_wide as int,
                pixels_high as int,
                idx,
            )),
{
    let r = x16_idx + 8 < pixels_wide && y16_idx + 8 < pixels_high;
    assert(quad_inside(
        x16_idx as int,
        y16_idx as int,
        pixels_wide as int,
        pixels_high as int,
        3,
    ) == r);
    r
}

/// Sum of squared error and sum of error of one 8x8 quadrant.
pub type Leaf8x8 = (u32, i32);

/// Rounded mean of the 8x8 samples at `off`.
pub open spec fn mean_8x8(p: spec_fn(int) -> int, off: int, stride: int) -> int {
    (block_total(p, off, stride, 8, 8) + 32) / 64
}

pub open spec fn samples8(src: Seq<u8>) -> spec_fn(int) -> int {
    |i: int| src[i] as int
}

pub open spec fn samples16(src: Seq<u16>) -> spec_fn(int) -> int {
    |i: int| src[i] as int
}

/// An 8x8 block at `(x, y)` of a plane lies inside its buffer.
pub open spec fn block_readable(len: int, stride: int, x: int, y: int) -> bool {
    (y + 7) * stride + x + 8 <= len
}

proof fn lemma_block_rows(len: int, stride: int, x: int, y: int, r: int)
    requires
        block_readable(len, stride, x, y),
        stride >= 0,
        x >= 0,
        y >= 0,
        0 <= r < 8,
    ensures
        0 <= y * stride + x,
        y * stride + x + r * stride + 8 <= len,
        r * stride >= 0,
{
    assert((y + 7) * stride == y * stride + 7 * stride) by (nonlinear_arith);
    assert(r * stride <= 7 * stride && r * stride >= 0) by (nonlinear_arith)
        requires
            0 <= r <= 7,
            stride >= 0,
    ;
    assert(y * stride >= 0) by (nonlinear_arith)
        requires
            y >= 0,
            stride >= 0,
    ;
}

fn row_sum_u8(src: &[u8], off: usize) -> (r: u32)
    requires
        off + 8 <= src.len(),
    ensures
        r == row_total(samples8(src@), off as int, 8),
        r <= 8 * 255,
{
    let mut sum: u32 = 0;
    for c in 0..8usize
        invariant
            off + 8 <= src.len(),
            sum == row_total(samples8(src@), off as int, c as int),
            sum <= 255 * c,
    {
        sum = sum + src[off + c] as u32;
    }
    sum
}

fn row_sum_u16(src: &[u16], off: usize) -> (r: u32)
    requires
        off + 8 <= src.len(),
    ensures
        r == row_total(samples16(src@), off as int, 8),
        r <= 8 * 65535,
{
    let mut sum: u32 = 0;
    for c in 0..8usize
        invariant
            off + 8 <= src.len(),
            sum == row_total(samples16(src@), off as int, c as int),
            sum <= 65535 * c,
    {
        sum = sum + src[off + c] as u32;
    }
    sum
}

/// Rounded mean of the 8x8 samples at `(x, y)`.
fn avg_8x8(src: &[u8], stride: usize, x: usize, y: usize) -> (r: i32)
    requires
        block_readable(src.len() as int, stride as int, x as int, y as int),
    ensures
        r == mean_8x8(samples8(src@), y * stride + x, stride as int),
        0 <= r <= 255,
{
    let mut sum: u32 = 0;
    let ghost base = y * stride + x;
    for i in 0..8usize
        invariant
            block_readable(src.len() as int, stride as int, x as int, y as int),
            base == y * stride + x,
            sum == block_total(samples8(src@), base, stride as int, 8, i as int),
            sum <= 2040 * i,
    {
        proof {
            lemma_block_rows(src.len() as int, stride as int, x as int, y as int, i as int);
        }
        sum = sum + row_sum_u8(src, y * stride + x + i * stride);
    }
    ((sum + 32) / 64) as i32
}

fn highbd_avg_8x8(src: &[u16], stride: usize, x: usize, y: usize) -> (r: i32)
    requires
        block_readable(src.len() as int, stride as int, x as int, y as int),
    ensures
        r == mean_8x8(samples16(src@), y * stride + x, stride as int),
        0 <= r <= 65535,
{
    let mut sum: u32 = 0;
    let ghost base = y * stride + x;
    for i in 0..8usize
        invariant
            block_readable(src.len() as int, stride as int, x as int, y as int),
            base == y * stride + x,
            sum == block_total(samples16(src@), base, stride as int, 8, i as int),
            sum <= 524280 * i,
    {
        proof {
            lemma_block_rows(src.len() as int, stride as int, x as int, y as int, i as int);
        }
        sum = sum + row_sum_u16(src, y * stride + x + i * stride);
    }
    ((sum + 32) / 64) as i32
}

/// Difference of the source and reference means of the quadrant at `(x, y)`.
pub open spec fn quad_error(
    src: spec_fn(int) -> int,
    src_stride: int,
    dst: spec_fn(int) -> int,
    dst_stride: int,
    x: int,
    y: int,
) -> int {
    mean_8x8(src, y * src_stride + x, src_stride) - mean_8x8(dst, y * dst_stride + x, dst_stride)
}

/// The record of quadrant `idx`: its squared error and its error, or zeros
/// when it starts outside the frame.
pub open spec fn quad_leaf(
    src: spec_fn(int) -> int,
    src_stride: int,
    dst: spec_fn(int) -> int,
    dst_stride: int,
    x16: int,
    y16: int,
    wide: int,
    high: int,
    idx: int,
) -> (int, int) {
    if quad_inside(x16, y16, wide, high, idx) {
        let e = quad_error(
            src,
            src_stride,
            dst,
            dst_stride,
            x16 + quad_x(idx),
            y16 + quad_y(idx),
        );
        (e * e, e)
    } else {
        (0, 0)
    }
}

/// The quadrants of a 16x16 block that start inside the frame lie inside both
/// buffers.
pub open spec fn quads_readable(
    src_len: int,
    src_stride: int,
    dst_len: int,
    dst_stride: int,
    x16: int,
    y16: int,
    wide: int,
    high: int,
) -> bool {
    forall|idx: int|
        0 <= idx < 4 && #[trigger] quad_inside(x16, y16, wide, high, idx) ==> block_readable(
            src_len,
            src_stride,
            x16 + quad_x(idx),
            y16 + quad_y(idx),
        ) && block_readable(dst_len, dst_stride, x16 + quad_x(idx), y16 + quad_y(idx))
}

fn quad_record(
    src: &[u8],
    src_stride: usize,
    dst: &[u8],
    dst_stride: usize,
    x: usize,
    y: usize,
) -> (r: Leaf8x8)
    requires
        block_readable(src.len() as int, src_stride as int, x as int, y as int),
        block_readable(dst.len() as int, dst_stride as int, x as int, y as int),
    ensures
        ({
            let e = quad_error(
                samples8(src@),
                src_stride as int,
                samples8(dst@),
                dst_stride as int,
                x as int,
                y as int,
            );
            r.0 == e * e && r.1 == e
        }),
{
    let sum: i32 = avg_8x8(src, src_stride, x, y) - avg_8x8(dst, dst_stride, x, y);
    assert(0 <= sum * sum <= 65025) by (nonlinear_arith)
        requires
            -255 <= sum <= 255,
    ;
    ((sum * sum) as u32, sum)
}

/// Per-quadrant statistics of the source against the reference for one 16x16
/// block: the difference of the 8x8 means and its square.
#[must_use]
pub fn fill_variance_8x8avg(
    src: &[u8],
    src_stride: usize,
    dst: &[u8],
    dst_stride: usize,
    x16_idx: usize,
    y16_idx: usize,
    pixels_wide: usize,
    pixels_high: usize,
) -> (r: [Leaf8x8; 4])
    requires
        x16_idx + 8 <= usize::MAX,
        y16_idx + 8 <= usize::MAX,
        quads_readable(
            src.len() as int,
            src_stride as int,
            dst.len() as int,
            dst_stride as int,
            x16_idx as int,
            y16_idx as int,
            pixels_wide as int,
            pixels_high as int,
        ),
    ensures
        forall|idx: int|
            0 <= idx < 4 ==> {
                let leaf = quad_leaf(
                    samples8(src@),
                    src_stride as int,
                    samples8(dst@),
                    dst_stride as int,
                    x16_idx as int,
                    y16_idx as int,
                    pixels_wide as int,
                    pixels_high as int,
                    idx,
                );
                leaf.0 == (#[trigger] r[idx]).0 && leaf.1 == r[idx].1
            },
{
    let mut out: [Leaf8x8; 4] = [(0u32, 0i32); 4];
    for idx in 0..4usize
        invariant
            x16_idx + 8 <= usize::MAX,
            y16_idx + 8 <= usize::MAX,
            quads_readable(
                src.len() as int,
                src_stride as int,
                dst.len() as int,
                dst_stride as int,
                x16_idx as int,
                y16_idx as int,
                pixels_wide as int,
                pixels_high as int,
            ),
            forall|k: int| idx <= k < 4 ==> #[trigger] out[k] == (0u32, 0i32),
            forall|k: int|
                0 <= k < idx ==> {
                    let leaf = quad_leaf(
                        samples8(src@),
                        src_stride as int,
                        samples8(dst@),
                        dst_stride as int,
                        x16_idx as int,
                        y16_idx as int,
                        pixels_wide as int,
                        pixels_high as int,
                        k,
                    );
                    leaf.0 == (#[trigger] out[k]).0 && leaf.1 == out[k].1
                },
    {
        let x8: usize = x16_idx + 8 * (idx % 2);
        let y8: usize = y16_idx + 8 * (idx / 2);
        assert(quad_inside(
            x16_idx as int,
            y16_idx as int,
            pixels_wide as int,
            pixels_high as int,
            idx as int,
        ) == (x8 < pixels_wide && y8 < pixels_high));
        if x8 < pixels_wide && y8 < pixels_high {
            out[idx] = quad_record(src, src_stride, dst, dst_stride, x8, y8);
        }
    }
    out
}

/// The same statistics for samples of more than eight bits.
#[must_use]
pub fn fill_variance_8x8avg_highbd(
    src: &[u16],
    src_stride: usize,
    dst: &[u16],
    dst_stride: usize,
    x16_idx: usize,
    y16_idx: usize,
    pixels_wide: usize,
    pixels_high: usize,
) -> (r: [Leaf8x8; 4])
    requires
        x16_idx + 8 <= usize::MAX,
        y16_idx + 8 <= usize::MAX,
        quads_readable(
            src.len() as int,
            src_stride as int,
            dst.len() as int,
            dst_stride as int,
            x16_idx as int,
            y16_idx as int,
            pixels_wide as int,
            pixels_high as int,
        ),
        forall|idx: int|
            0 <= idx < 4 && #[trigger] quad_inside(
                x16_idx as int,
                y16_idx as int,
                pixels_wide as int,
                pixels_high as int,
                idx,
            ) ==> -46340 <= quad_error(
                samples16(src@),
                src_stride as int,
                samples16(dst@),
                dst_stride as int,
                x16_idx + quad_x(idx),
                y16_idx + quad_y(idx),
            ) <= 46340,
    ensures
        forall|idx: int|
            0 <= idx < 4 ==> {
                let leaf = quad_leaf(
                    samples16(src@),
                    src_stride as int,
                    samples16(dst@),
                    dst_stride as int,
                    x16_idx as int,
                    y16_idx as int,
                    pixels_wide as int,
                    pixels_high as int,
                    idx,
                );
                leaf.0 == (#[trigger] r[idx]).0 && leaf.1 == r[idx].1
            },
{
    let mut out: [Leaf8x8; 4] = [(0u32, 0i32); 4];
    for idx in 0..4usize
        invariant
            x16_idx + 8 <= usize::MAX,
            y16_idx + 8 <= usize::MAX,
            quads_readable(
                src.len() as int,
                src_stride as int,
                dst.len() as int,
                dst_stride as int,
                x16_idx as int,
                y16_idx as int,
                pixels_wide as int,
                pixels_high as int,
            ),
            forall|i: int|
                0 <= i < 4 && #[trigger] quad_inside(
                    x16_idx as int,
                    y16_idx as int,
                    pixels_wide as int,
                    pixels_high as int,
                    i,
                ) ==> -46340 <= quad_error(
                    samples16(src@),
                    src_stride as int,
                    samples16(dst@),
                    dst_stride as int,
                    x16_idx + quad_x(i),
                    y16_idx + quad_y(i),
                ) <= 46340,
            forall|k: int| idx <= k < 4 ==> #[trigger] out[k] == (0u32, 0i32),
            forall|k: int|
                0 <= k < idx ==> {
                    let leaf = quad_leaf(
                        samples16(src@),
                        src_stride as int,
                        samples16(dst@),
                        dst_stride as int,
                        x16_idx as int,
                        y16_idx as int,
                        pixels_wide as int,
                        pixels_high as int,
                        k,
                    );
                    leaf.0 == (#[trigger] out[k]).0 && leaf.1 == out[k].1
                },
    {
        let x8: usize = x16_idx + 8 * (idx % 2);
        let y8: usize = y16_idx + 8 * (idx / 2);
        assert(quad_inside(
            x16_idx as int,
            y16_idx as int,
            pixels_wide as int,
            pixels_high as int,
            idx as int,
        ) == (x8 < pixels_wide && y8 < pixels_high));
        if x8 < pixels_wide && y8 < pixels_high {
            let sum: i32 = highbd_avg_8x8(src, src_stride, x8, y8) - highbd_avg_8x8(
                dst,
                dst_stride,
                x8,
                y8,
            );
            assert(0 <= sum * sum <= 2147395600) by (nonlinear_arith)
                requires
                    -46340 <= sum <= 46340,
            ;
            out[idx] = ((sum * sum) as u32, sum);
        }
    }
    out
}

/// Absolute difference of the source and the reference at sample `k` (in
/// raster order) of the 8x8 block at `(x, y)`.
pub open spec fn diff_8x8(
    src: spec_fn(int) -> int,
    src_stride: int,
    dst: spec_fn(int) -> int,
    dst_stride: int,
    x: int,
    y: int,
    k: int,
) -> int {
    abs_int(
        src((y + k / 8) * src_stride + x + k % 8) - dst((y + k / 8) * dst_stride + x + k % 8),
    )
}

/// Range of the absolute differences over an 8x8 block.
pub open spec fn range_8x8(
    src: spec_fn(int) -> int,
    src_stride: int,
    dst: spec_fn(int) -> int,
    dst_stride: int,
    x: int,
    y: int,
) -> int {
    let d = |k: int| diff_8x8(src, src_stride, dst, dst_stride, x, y, k);
    fold_max(d, 64) - fold_min(d, 64)
}

/// Range over the quadrants `0, .., n - 1` that start inside the frame: the
/// largest range seen (at least 0) and the smallest (at most 255).
pub open spec fn range_bounds(
    src: spec_fn(int) -> int,
    src_stride: int,
    dst: spec_fn(int) -> int,
    dst_stride: int,
    x16: int,
    y16: int,
    wide: int,
    high: int,
    n: int,
) -> (int, int)
    decreases n,
{
    if n <= 0 {
        (0, 255)
    } else {
        let b = range_bounds(src, src_stride, dst, dst_stride, x16, y16, wide, high, n - 1);
        if quad_inside(x16, y16, wide, high, n - 1) {
            let v = range_8x8(
                src,
                src_stride,
                dst,
                dst_stride,
                x16 + quad_x(n - 1),
                y16 + quad_y(n - 1),
            );
            (
                if b.0 < v {
                    v
                } else {
                    b.0
                },
                if v < b.1 {
                    v
                } else {
                    b.1
                },
            )
        } else {
            b
        }
    }
}

fn abs_diff(a: i32, b: i32) -> (r: i32)
    requires
        0 <= a <= 65535,
        0 <= b <= 65535,
    ensures
        r == abs_int(a - b),
{
    if a < b {
        b - a
    } else {
        a - b
    }
}

fn minmax_8x8(
    src: &[u8],
    src_stride: usize,
    dst: &[u8],
    dst_stride: usize,
    x: usize,
    y: usize,
) -> (r: (i32, i32))
    requires
        block_readable(src.len() as int, src_stride as int, x as int, y as int),
        block_readable(dst.len() as int, dst_stride as int, x as int, y as int),
    ensures
        ({
            let d = |k: int|
                diff_8x8(
                    samples8(src@),
                    src_stride as int,
                    samples8(dst@),
                    dst_stride as int,
                    x as int,
                    y as int,
                    k,
                );
            r.0 == fold_min(d, 64) && r.1 == fold_max(d, 64)
        }),
        0 <= r.0 <= r.1 <= 255,
{
    let ghost d = |k: int|
        diff_8x8(
            samples8(src@),
            src_stride as int,
            samples8(dst@),
            dst_stride as int,
            x as int,
            y as int,
            k,
        );
    let mut lo: i32 = 255;
    let mut hi: i32 = 0;
    for k in 0..64usize
        invariant
            block_readable(src.len() as int, src_stride as int, x as int, y as int),
            block_readable(dst.len() as int, dst_stride as int, x as int, y as int),
            d == (|k: int|
                diff_8x8(
                    samples8(src@),
                    src_stride as int,
                    samples8(dst@),
                    dst_stride as int,
                    x as int,
                    y as int,
                    k,
                )),
            k == 0 ==> lo == 255 && hi == 0,
            k > 0 ==> lo == fold_min(d, k as int) && hi == fold_max(d, k as int),
            k > 0 ==> 0 <= lo <= hi <= 255,
    {
        proof {
            lemma_block_rows(src.len() as int, src_stride as int, x as int, y as int, k as int / 8);
            lemma_block_rows(dst.len() as int, dst_stride as int, x as int, y as int, k as int / 8);
            assert((y + k as int / 8) * src_stride == y * src_stride + (k as int / 8) * src_stride)
                by (nonlinear_arith);
            assert((y + k as int / 8) * dst_stride == y * dst_stride + (k as int / 8) * dst_stride)
                by (nonlinear_arith);
        }
        let s: i32 = src[y * src_stride + x + k / 8 * src_stride + k % 8] as i32;
        let t: i32 = dst[y * dst_stride + x + k / 8 * dst_stride + k % 8] as i32;
        let diff: i32 = abs_diff(s, t);
        assert(diff == d(k as int));
        if diff < lo {
            lo = diff;
        }
        if diff > hi {
            hi = diff;
        }
    }
    (lo, hi)
}

fn highbd_minmax_8x8(
    src: &[u16],
    src_stride: usize,
    dst: &[u16],
    dst_stride: usize,
    x: usize,
    y: usize,
) -> (r: (i32, i32))
    requires
        block_readable(src.len() as int, src_stride as int, x as int, y as int),
        block_readable(dst.len() as int, dst_stride as int, x as int, y as int),
    ensures
        ({
            let d = |k: int|
                diff_8x8(
                    samples16(src@),
                    src_stride as int,
                    samples16(dst@),
                    dst_stride as int,
                    x as int,
                    y as int,
                    k,
                );
            r.0 == fold_min(d, 64) && r.1 == fold_max(d, 64)
        }),
        0 <= r.0 <= r.1 <= 65535,
{
    let ghost d = |k: int|
        diff_8x8(
            samples16(src@),
            src_stride as int,
            samples16(dst@),
            dst_stride as int,
            x as int,
            y as int,
            k,
        );
    let mut lo: i32 = 65535;
    let mut hi: i32 = 0;
    for k in 0..64usize
        invariant
            block_readable(src.len() as int, src_stride as int, x as int, y as int),
            block_readable(dst.len() as int, dst_stride as int, x as int, y as int),
            d == (|k: int|
                diff_8x8(
                    samples16(src@),
                    src_stride as int,
                    samples16(dst@),
                    dst_stride as int,
                    x as int,
                    y as int,
                    k,
                )),
            k == 0 ==> lo == 65535 && hi == 0,
            k > 0 ==> lo == fold_min(d, k as int) && hi == fold_max(d, k as int),
            k > 0 ==> 0 <= lo <= hi <= 65535,
    {
        proof {
            lemma_block_rows(src.len() as int, src_stride as int, x as int, y as int, k as int / 8);
            lemma_block_rows(dst.len() as int, dst_stride as int, x as int, y as int, k as int / 8);
            assert((y + k as int / 8) * src_stride == y * src_stride + (k as int / 8) * src_stride)
                by (nonlinear_arith);
            assert((y + k as int / 8) * dst_stride == y * dst_stride + (k as int / 8) * dst_stride)
                by (nonlinear_arith);
        }
        let s: i32 = src[y * src_stride + x + k / 8 * src_stride + k % 8] as i32;
        let t: i32 = dst[y * dst_stride + x + k / 8 * dst_stride + k % 8] as i32;
        let diff: i32 = abs_diff(s, t);
        assert(diff == d(k as int));
        if diff < lo {
            lo = diff;
        }
        if diff > hi {
            hi = diff;
        }
    }
    (lo, hi)
}

/// Spread of the difference ranges of the 8x8 quadrants of a 16x16 block that
/// start inside the frame; -255 when none does.
#[must_use]
pub fn compute_minmax_8x8(
    src: &[u8],
    src_stride: usize,
    dst: &[u8],
    dst_stride: usize,
    x16_idx: usize,
    y16_idx: usize,
    pixels_wide: usize,
    pixels_high: usize,
) -> (r: i32)
    requires
        x16_idx + 8 <= usize::MAX,
        y16_idx + 8 <= usize::MAX,
        quads_readable(
            src.len() as int,
            src_stride as int,
            dst.len() as int,
            dst_stride as int,
            x16_idx as int,
            y16_idx as int,
            pixels_wide as int,
            pixels_high as int,
        ),
    ensures
        ({
            let b = range_bounds(
                samples8(src@),
                src_stride as int,
                samples8(dst@),
                dst_stride as int,
                x16_idx as int,
                y16_idx as int,
                pixels_wide as int,
                pixels_high as int,
                4,
            );
            r == b.0 - b.1
        }),
{
    let mut minmax_max: i32 = 0;
    let mut minmax_min: i32 = 255;
    for idx in 0..4usize
        invariant
            x16_idx + 8 <= usize::MAX,
            y16_idx + 8 <= usize::MAX,
            quads_readable(
                src.len() as int,
                src_stride as int,
                dst.len() as int,
                dst_stride as int,
                x16_idx as int,
                y16_idx as int,
                pixels_wide as int,
                pixels_high as int,
            ),
            (minmax_max as int, minmax_min as int) == range_bounds(
                samples8(src@),
                src_stride as int,
                samples8(dst@),
                dst_stride as int,
                x16_idx as int,
                y16_idx as int,
                pixels_wide as int,
                pixels_high as int,
                idx as int,
            ),
            0 <= minmax_max <= 65535,
            0 <= minmax_min <= 255,
    {
        let x8: usize = x16_idx + 8 * (idx % 2);
        let y8: usize = y16_idx + 8 * (idx / 2);
        assert(quad_inside(
            x16_idx as int,
            y16_idx as int,
            pixels_wide as int,
            pixels_high as int,
            idx as int,
        ) == (x8 < pixels_wide && y8 < pixels_high));
        if x8 < pixels_wide && y8 < pixels_high {
            let (lo, hi) = minmax_8x8(src, src_stride, dst, dst_stride, x8, y8);
            if hi - lo > minmax_max {
                minmax_max = hi - lo;
            }
            if hi - lo < minmax_min {
                minmax_min = hi - lo;
            }
        }
    }
    minmax_max - minmax_min
}

/// The same spread for samples of more than eight bits.
#[must_use]
pub fn compute_minmax_8x8_highbd(
    src: &[u16],
    src_stride: usize,
    dst: &[u16],
    dst_stride: usize,
    x16_idx: usize,
    y16_idx: usize,
    pixels_wide: usize,
    pixels_high: usize,
) -> (r: i32)
    requires
        x16_idx + 8 <= usize::MAX,
        y16_idx + 8 <= usize::MAX,
        quads_readable(
            src.len() as int,
            src_stride as int,
            dst.len() as int,
            dst_stride as int,
            x16_idx as int,
            y16_idx as int,
            pixels_wide as int,
            pixels_high as int,
        ),
    ensures
        ({
            let b = range_bounds(
                samples16(src@),
                src_stride as int,
                samples16(dst@),
                dst_stride as int,
                x16_idx as int,
                y16_idx as int,
                pixels_wide as int,
                pixels_high as int,
                4,
            );
            r == b.0 - b.1
        }),
{
    let mut minmax_max: i32 = 0;
    let mut minmax_min: i32 = 255;
    for idx in 0..4usize
        invariant
            x16_idx + 8 <= usize::MAX,
            y16_idx + 8 <= usize::MAX,
            quads_readable(
                src.len() as int,
                src_stride as int,
                dst.len() as int,
                dst_stride as int,
                x16_idx as int,
                y16_idx as int,
                pixels_wide as int,
                pixels_high as int,
            ),
            (minmax_max as int, minmax_min as int) == range_bounds(
                samples16(src@),
                src_stride as int,
                samples16(dst@),
                dst_stride as int,
                x16_idx as int,
                y16_idx as int,
                pixels_wide as int,
                pixels_high as int,
                idx as int,
            ),
            0 <= minmax_max <= 65535,
            0 <= minmax_min <= 255,
    {
        let x8: usize = x16_idx + 8 * (idx % 2);
        let y8: usize = y16_idx + 8 * (idx / 2);
        assert(quad_inside(
            x16_idx as int,
            y16_idx as int,
            pixels_wide as int,
            pixels_high as int,
            idx as int,
        ) == (x8 < pixels_wide && y8 < pixels_high));
        if x8 < pixels_wide && y8 < pixels_high {
            let (lo, hi) = highbd_minmax_8x8(src, src_stride, dst, dst_stride, x8, y8);
            if hi - lo > minmax_max {
                minmax_max = hi - lo;
            }
            if hi - lo < minmax_min {
                minmax_min = hi - lo;
            }
        }
    }
    minmax_max - minmax_min
}

/// The content-scaled partition threshold: half as much again for a moving
/// non-reference frame, and a quarter more from speed 8 on.
#[must_use]
pub fn scale_part_thresh_content(
    threshold_base: i64,
    speed: i32,
    non_reference_frame: bool,
    is_static: bool,
) -> (r: i64)
    requires
        -0x1000_0000_0000_0000 <= threshold_base <= 0x1000_0000_0000_0000,
    ensures
        ({
            let moving = if non_reference_frame && !is_static {
                3 * threshold_base / 2
            } else {
                threshold_base as int
            };
            r == if speed >= 8 {
                5 * moving / 4
            } else {
                moving
            }
        }),
{
    let mut threshold: i64 = threshold_base;
    if non_reference_frame && !is_static {
        let t: i64 = 3 * threshold;
        assert(t >> 1 == t / 2) by (bit_vector);
        threshold = t >> 1;
    }
    if speed >= 8 {
        let t: i64 = 5 * threshold;
        assert(t >> 2 == t / 4) by (bit_vector);
        return t >> 2;
    }
    threshold
}

/// City-block distance between two full-sample motion vectors.
#[must_use]
pub fn mv_distance(mv0: (i16, i16), mv1: (i16, i16)) -> (r: i32)
    ensures
        r == abs_int(mv0.0 - mv1.0) + abs_int(mv0.1 - mv1.1),
{
    let d0: i32 = mv0.0 as i32 - mv1.0 as i32;
    let d1: i32 = mv0.1 as i32 - mv1.1 as i32;
    (if d0 < 0 {
        -d0
    } else {
        d0
    }) + (if d1 < 0 {
        -d1
    } else {
        d1
    })
}

/// Whether the source moved so little that, at the given level of the speed
/// feature, the superblock may be coded as a zero-motion skip.
#[must_use]
pub fn is_set_force_zeromv_skip_based_on_src_sad(
    set_zeromv_skip_based_on_source_sad: i32,
    source_sad_nonrd: SourceSad,
) -> (r: bool)
    ensures
        r == zeromv_level_admits(set_zeromv_skip_based_on_source_sad as int, source_sad_nonrd),
{
    if set_zeromv_skip_based_on_source_sad >= 3 {
        source_sad_nonrd == SourceSad::Zero || source_sad_nonrd == SourceSad::VeryLow
            || source_sad_nonrd == SourceSad::Low
    } else if set_zeromv_skip_based_on_source_sad == 2 {
        source_sad_nonrd == SourceSad::Zero || source_sad_nonrd == SourceSad::VeryLow
    } else if set_zeromv_skip_based_on_source_sad == 1 {
        source_sad_nonrd == SourceSad::Zero
    } else {
        false
    }
}

/// Level 0 (or below) admits nothing, level 1 only a still source, level 2 up
/// to very low motion, level 3 and above up to low motion.
pub open spec fn zeromv_level_admits(level: int, sad: SourceSad) -> bool {
    let highest = if level >= 3 {
        2
    } else {
        level - 1
    };
    sad.rank() <= highest
}

/// Chroma threshold that goes with a luma exit threshold: three quarters.
#[must_use]
pub fn calc_chroma_thresh_for_zeromv_skip(thresh_exit_part: u32) -> (r: u32)
    requires
        3 * thresh_exit_part <= u32::MAX,
    ensures
        r == 3 * thresh_exit_part / 4,
{
    let t: u32 = 3 * thresh_exit_part;
    assert(t >> 2 == t / 4) by (bit_vector);
    t >> 2
}

/// Outcome of the superblock-level zero-motion check.
#[derive(Clone, Copy, PartialEq, Eq, Debug, Structural)]
pub struct ZeromvSkip {
    /// The superblock is coded as one block and partitioning ends.
    pub exit_partitioning: bool,
    /// 1 on the exit path, 2 for a still superblock that is partitioned all
    /// the same, 0 otherwise.
    pub force_zeromv_skip_for_sb: i32,
}

/// Luma threshold of the zero-motion exit.
pub open spec fn zeromv_luma_thresh(cfg: int, increase: bool) -> int {
    if increase {
        2 * cfg
    } else {
        cfg
    }
}

/// Chroma threshold of the zero-motion exit: three quarters of the luma one,
/// and an eighth of that under `strict`.
pub open spec fn zeromv_chroma_thresh(cfg: int, increase: bool, strict: bool) -> int {
    let base = 3 * zeromv_luma_thresh(cfg, increase) / 4;
    if strict {
        base / 8
    } else {
        base
    }
}

/// Decide whether the whole superblock can be coded as a zero-motion skip.
#[must_use]
pub fn set_force_zeromv_skip_for_sb(
    set_zeromv_skip_based_on_source_sad: i32,
    source_sad_nonrd: SourceSad,
    increase_source_sad_thresh: bool,
    part_early_exit_zeromv: i32,
    sb_mi_width: i32,
    sb_mi_height: i32,
    thresh_exit_part_y_cfg: u32,
    mi_row: i32,
    mi_col: i32,
    tile_mi_row_end: i32,
    tile_mi_col_end: i32,
    y_sad: u32,
    uv_sad: [u32; 2],
) -> (r: ZeromvSkip)
    requires
        zeromv_level_admits(set_zeromv_skip_based_on_source_sad as int, source_sad_nonrd) ==> {
            &&& i32::MIN <= mi_col + sb_mi_width <= i32::MAX
            &&& i32::MIN <= mi_row + sb_mi_height <= i32::MAX
            &&& 3 * zeromv_luma_thresh(thresh_exit_part_y_cfg as int, increase_source_sad_thresh)
                <= u32::MAX
        },
    ensures
        ({
            let cfg = thresh_exit_part_y_cfg as int;
            let luma = zeromv_luma_thresh(cfg, increase_source_sad_thresh);
            let chroma = zeromv_chroma_thresh(
                cfg,
                increase_source_sad_thresh,
                source_sad_nonrd.rank() >= 1 && part_early_exit_zeromv == 1,
            );
            let admitted = zeromv_level_admits(
                set_zeromv_skip_based_on_source_sad as int,
                source_sad_nonrd,
            );
            let inside = mi_col + sb_mi_width <= tile_mi_col_end && mi_row + sb_mi_height
                <= tile_mi_row_end;
            let still = y_sad < luma && uv_sad[0] < chroma && uv_sad[1] < chroma;
            &&& r.exit_partitioning == (admitted && inside && still)
            &&& r.force_zeromv_skip_for_sb == if admitted && inside && still {
                1int
            } else if admitted && source_sad_nonrd == SourceSad::Zero && part_early_exit_zeromv
                >= 2 {
                2
            } else {
                0
            }
        }),
{
    if !is_set_force_zeromv_skip_based_on_src_sad(
        set_zeromv_skip_based_on_source_sad,
        source_sad_nonrd,
    ) {
        return ZeromvSkip { exit_partitioning: false, force_zeromv_skip_for_sb: 0 };
    }
    let factor: u32 = if increase_source_sad_thresh { 2 } else { 1 };
    let thresh_exit_part_y: u32 = thresh_exit_part_y_cfg * factor;
    let mut thresh_exit_part_uv: u32 = calc_chroma_thresh_for_zeromv_skip(thresh_exit_part_y);
    if source_sad_nonrd != SourceSad::Zero && part_early_exit_zeromv == 1 {
        thresh_exit_part_uv = thresh_exit_part_uv / 8;
    }
    if mi_col + sb_mi_width <= tile_mi_col_end && mi_row + sb_mi_height <= tile_mi_row_end && y_sad
        < thresh_exit_part_y && uv_sad[0] < thresh_exit_part_uv && uv_sad[1]
        < thresh_exit_part_uv {
        return ZeromvSkip { exit_partitioning: true, force_zeromv_skip_for_sb: 1 };
    }
    if source_sad_nonrd == SourceSad::Zero && part_early_exit_zeromv >= 2 {
        return ZeromvSkip { exit_partitioning: false, force_zeromv_skip_for_sb: 2 };
    }
    ZeromvSkip { exit_partitioning: false, force_zeromv_skip_for_sb: 0 }
}

/// The reference that the partitioner measures against.
#[derive(Clone, Copy, PartialEq, Eq, Debug, Structural)]
pub struct RefFrameForPartition {
    pub ref_frame_partition: i32,
    /// The sum of absolute differences that goes with it.
    pub y_sad: u32,
    pub nonrd_prune_ref_frame_search: i32,
    /// `None` leaves the caller's value as it was.
    pub sb_me_partition: Option<i32>,
}

/// The last, the golden and the alternate reference frame.
pub const LAST_FRAME: i32 = 1;

pub const GOLDEN_FRAME: i32 = 4;

pub const ALTREF_FRAME: i32 = 7;

/// `sad` beats the last frame's: by a tenth, or outright on an enhancement
/// layer above one of lower quality.
pub open spec fn beats_last(sad: int, last: int, enhancement: bool) -> bool {
    if enhancement {
        sad < last
    } else {
        10 * sad < 9 * last
    }
}

/// Choose the reference frame for partitioning: golden or alternate when it
/// beats both the last frame and the other one, the last frame otherwise.
#[must_use]
pub fn set_ref_frame_for_partition(
    spatial_layer_id: i32,
    has_lower_quality_layer: bool,
    y_sad: u32,
    y_sad_g: u32,
    y_sad_alt: u32,
    nonrd_prune_ref_frame_search_cfg: i32,
) -> (r: RefFrameForPartition)
    ensures
        ({
            let enhancement = spatial_layer_id > 0 && has_lower_quality_layer;
            let golden = beats_last(y_sad_g as int, y_sad as int, enhancement) && y_sad_g
                < y_sad_alt;
            let altref = beats_last(y_sad_alt as int, y_sad as int, enhancement) && y_sad_alt
                < y_sad_g;
            r == if golden {
                RefFrameForPartition {
                    ref_frame_partition: GOLDEN_FRAME,
                    y_sad: y_sad_g,
                    nonrd_prune_ref_frame_search: 0,
                    sb_me_partition: Some(0),
                }
            } else if altref {
                RefFrameForPartition {
                    ref_frame_partition: ALTREF_FRAME,
                    y_sad: y_sad_alt,
                    nonrd_prune_ref_frame_search: 0,
                    sb_me_partition: Some(0),
                }
            } else {
                RefFrameForPartition {
                    ref_frame_partition: LAST_FRAME,
                    y_sad,
                    nonrd_prune_ref_frame_search: nonrd_prune_ref_frame_search_cfg,
                    sb_me_partition: None,
                }
            }
        }),
{
    let enhancement = spatial_layer_id > 0 && has_lower_quality_layer;
    let golden_beats = if enhancement {
        y_sad_g < y_sad
    } else {
        10 * (y_sad_g as u64) < 9 * (y_sad as u64)
    };
    let altref_beats = if enhancement {
        y_sad_alt < y_sad
    } else {
        10 * (y_sad_alt as u64) < 9 * (y_sad as u64)
    };
    if golden_beats && y_sad_g < y_sad_alt {
        RefFrameForPartition {
            ref_frame_partition: GOLDEN_FRAME,
            y_sad: y_sad_g,
            nonrd_prune_ref_frame_search: 0,
            sb_me_partition: Some(0),
        }
    } else if altref_beats && y_sad_alt < y_sad_g {
        RefFrameForPartition {
            ref_frame_partition: ALTREF_FRAME,
            y_sad: y_sad_alt,
            nonrd_prune_ref_frame_search: 0,
            sb_me_partition: Some(0),
        }
    } else {
        RefFrameForPartition {
            ref_frame_partition: LAST_FRAME,
            y_sad,
            nonrd_prune_ref_frame_search: nonrd_prune_ref_frame_search_cfg,
            sb_me_partition: None,
        }
    }
}

/// Number of low-temporal-variance flags of a superblock.
pub const VARIANCE_LOW_LEN: usize = 105;

/// Slot of the flag of a block of size `bsize` at `(mi_row, mi_col)` in a
/// 64x64 superblock, or `None` for a size that has no flag.
pub open spec fn low_var_slot_64(mi_row: int, mi_col: int, bsize: int) -> Option<int> {
    let r = mi_row % 16;
    let c = mi_col % 16;
    if bsize == BLOCK_64X64 {
        Some(0)
    } else if bsize == BLOCK_64X32 {
        if c == 0 {
            Some(
                if r == 0 {
                    1
                } else {
                    2
                },
            )
        } else {
            None
        }
    } else if bsize == BLOCK_32X64 {
        if r == 0 {
            Some(
                if c == 0 {
                    3
                } else {
                    4
                },
            )
        } else {
            None
        }
    } else if bsize == BLOCK_32X32 {
        Some(
            5 + (if r == 0 {
                0int
            } else {
                2
            }) + (if c == 0 {
                0int
            } else {
                1
            }),
        )
    } else if bsize == BLOCK_32X16 || bsize == BLOCK_16X32 || bsize == BLOCK_16X16 {
        Some(9 + 4 * (2 * (r / 8) + c / 8) + 2 * ((r / 4) % 2) + (c / 4) % 2)
    } else {
        None
    }
}

/// Slot of the flag of a block of size `bsize` at `(mi_row, mi_col)` in a
/// 128x128 superblock, or `None` for a size that has no flag.
pub open spec fn low_var_slot_128(mi_row: int, mi_col: int, bsize: int) -> Option<int> {
    let r = mi_row % 32;
    let c = mi_col % 32;
    let idx64 = 2 * (r / 16) + c / 16;
    let idx32 = 2 * ((r / 8) % 2) + (c / 8) % 2;
    let idx16 = 2 * ((r / 4) % 2) + (c / 4) % 2;
    if bsize == BLOCK_128X128 {
        Some(0)
    } else if bsize == BLOCK_128X64 {
        Some(
            if r == 0 {
                1
            } else {
                2
            },
        )
    } else if bsize == BLOCK_64X128 {
        Some(
            if c == 0 {
                3
            } else {
                4
            },
        )
    } else if bsize == BLOCK_64X64 {
        Some(5 + idx64)
    } else if bsize == BLOCK_64X32 {
        Some(9 + 2 * idx64 + (r / 8) % 2)
    } else if bsize == BLOCK_32X64 {
        Some(17 + 2 * idx64 + (c / 8) % 2)
    } else if bsize == BLOCK_32X32 {
        Some(25 + 4 * idx64 + idx32)
    } else if bsize == BLOCK_32X16 || bsize == BLOCK_16X32 || bsize == BLOCK_16X16 {
        Some(41 + 16 * idx64 + 4 * idx32 + idx16)
    } else {
        None
    }
}

/// The flag in a slot; 0 where there is none.
pub open spec fn flag_at(variance_low: Seq<u8>, slot: Option<int>) -> int {
    match slot {
        Some(k) => variance_low[k] as int,
        None => 0,
    }
}

/// Where the flags of the 16x16 cells of a 64x64 superblock are kept, by row
/// and column of the cell.
const POS_SHIFT_16X16: [[usize; 4]; 4] = [
    [9, 10, 13, 14],
    [11, 12, 15, 16],
    [17, 18, 21, 22],
    [19, 20, 23, 24],
];

/// The low-temporal-variance flag of a block in a 64x64 superblock.
#[must_use]
pub fn get_force_skip_low_temp_var_small_sb(
    variance_low: &[u8],
    mi_row: i32,
    mi_col: i32,
    bsize: usize,
) -> (r: i32)
    requires
        variance_low.len() >= 25,
    ensures
        r == flag_at(variance_low@, low_var_slot_64(mi_row as int, mi_col as int, bsize as int)),
{
    assert(mi_row & 0xF == mi_row % 16 && mi_col & 0xF == mi_col % 16) by (bit_vector);
    let r: usize = (mi_row & 0xF) as usize;
    let c: usize = (mi_col & 0xF) as usize;
    if bsize == BLOCK_64X64 {
        variance_low[0] as i32
    } else if bsize == BLOCK_64X32 {
        if c != 0 {
            0
        } else if r == 0 {
            variance_low[1] as i32
        } else {
            variance_low[2] as i32
        }
    } else if bsize == BLOCK_32X64 {
        if r != 0 {
            0
        } else if c == 0 {
            variance_low[3] as i32
        } else {
            variance_low[4] as i32
        }
    } else if bsize == BLOCK_32X32 {
        let row: usize = if r == 0 { 0 } else { 2 };
        let col: usize = if c == 0 { 0 } else { 1 };
        variance_low[5 + row + col] as i32
    } else if bsize == BLOCK_32X16 || bsize == BLOCK_16X32 || bsize == BLOCK_16X16 {
        variance_low[POS_SHIFT_16X16[r / 4][c / 4]] as i32
    } else {
        0
    }
}

/// The low-temporal-variance flag of a block in a 128x128 superblock.
#[must_use]
pub fn get_force_skip_low_temp_var(
    variance_low: &[u8],
    mi_row: i32,
    mi_col: i32,
    bsize: usize,
) -> (r: i32)
    requires
        variance_low.len() >= VARIANCE_LOW_LEN,
    ensures
        r == flag_at(variance_low@, low_var_slot_128(mi_row as int, mi_col as int, bsize as int)),
{
    assert(mi_row & 0x1F == mi_row % 32 && mi_col & 0x1F == mi_col % 32) by (bit_vector);
    let r: usize = (mi_row & 0x1F) as usize;
    let c: usize = (mi_col & 0x1F) as usize;
    let idx64: usize = 2 * (r / 16) + c / 16;
    let idx32: usize = 2 * (r / 8 % 2) + c / 8 % 2;
    let idx16: usize = 2 * (r / 4 % 2) + c / 4 % 2;
    if bsize == BLOCK_128X128 {
        variance_low[0] as i32
    } else if bsize == BLOCK_128X64 {
        variance_low[if r == 0 { 1 } else { 2 }] as i32
    } else if bsize == BLOCK_64X128 {
        variance_low[if c == 0 { 3 } else { 4 }] as i32
    } else if bsize == BLOCK_64X64 {
        variance_low[5 + idx64] as i32
    } else if bsize == BLOCK_64X32 {
        variance_low[9 + 2 * idx64 + r / 8 % 2] as i32
    } else if bsize == BLOCK_32X64 {
        variance_low[17 + 2 * idx64 + c / 8 % 2] as i32
    } else if bsize == BLOCK_32X32 {
        variance_low[25 + 4 * idx64 + idx32] as i32
    } else if bsize == BLOCK_32X16 || bsize == BLOCK_16X32 || bsize == BLOCK_16X16 {
        variance_low[41 + 16 * idx64 + 4 * idx32 + idx16] as i32
    } else {
        0
    }
}

/// The node variances of a superblock that the flag setters read. A 64x64
/// superblock uses `l1[0]`, `l2[0..4]` and `l3[0..16]`.
#[derive(Clone, Copy, Debug)]
pub struct VarianceTree {
    /// The 128x128 node: whole, upper, lower, left, right.
    pub l0: [i32; 5],
    /// The four 64x64 nodes, the same five fields each.
    pub l1: [[i32; 5]; 4],
    /// The sixteen 32x32 nodes.
    pub l2: [i32; 16],
    /// The sixty-four 16x16 nodes.
    pub l3: [i32; 64],
}

impl Default for VarianceTree {
    fn default() -> (r: Self)
        ensures
            forall|i: int| 0 <= i < 5 ==> r.l0[i] == 0,
            forall|i: int, j: int| 0 <= i < 4 && 0 <= j < 5 ==> r.l1[i][j] == 0,
            forall|i: int| 0 <= i < 16 ==> r.l2[i] == 0,
            forall|i: int| 0 <= i < 64 ==> r.l3[i] == 0,
    {
        VarianceTree { l0: [0; 5], l1: [[0; 5]; 4], l2: [0; 16], l3: [0; 64] }
    }
}

/// The block sizes of the mode-info cells coded so far; `None` where no block
/// covers the cell.
#[derive(Clone, Copy, Debug)]
pub struct MiGrid<'a> {
    /// One entry per cell, indexed `mi_stride * row + col`.
    pub bsize: &'a [Option<usize>],
    pub mi_stride: usize,
    pub mi_rows: usize,
    pub mi_cols: usize,
}

impl<'a> MiGrid<'a> {
    /// The block size at a cell; `None` past the end of the grid too.
    pub open spec fn cell(self, row: int, col: int) -> Option<usize> {
        let i = row * self.mi_stride + col;
        if 0 <= i < self.bsize.len() {
            self.bsize[i]
        } else {
            None
        }
    }

    /// The block size at a cell that lies inside the frame.
    pub open spec fn visible(self, row: int, col: int) -> Option<usize> {
        if row < self.mi_rows && col < self.mi_cols {
            self.cell(row, col)
        } else {
            None
        }
    }

    /// The cells up to `reach` rows and columns from `(mi_row, mi_col)` can be
    /// addressed.
    pub open spec fn addresses(self, mi_row: int, mi_col: int, reach: int) -> bool {
        (mi_row + reach) * self.mi_stride + mi_col + reach <= usize::MAX && mi_row + reach
            <= usize::MAX && mi_col + reach <= usize::MAX
    }

    fn visible_at(&self, row: usize, col: usize) -> (r: Option<usize>)
        requires
            row * self.mi_stride + col <= usize::MAX,
        ensures
            r == self.visible(row as int, col as int),
    {
        if row >= self.mi_rows || col >= self.mi_cols {
            return None;
        }
        assert(0 <= row * self.mi_stride) by (nonlinear_arith);
        let i: usize = row * self.mi_stride + col;
        if i < self.bsize.len() {
            self.bsize[i]
        } else {
            None
        }
    }
}

pub open spec fn is_16_class(b: usize) -> bool {
    b == BLOCK_16X16 || b == BLOCK_32X16 || b == BLOCK_16X32
}

/// Whether flag `k` of a 64x64 superblock coded as `cur_bsize` is raised: the
/// variance of the region the flag stands for is under its threshold.
pub open spec fn raised_64(
    grid: MiGrid,
    cur_bsize: int,
    vt: VarianceTree,
    t: [i64; 5],
    mi_col: int,
    mi_row: int,
    k: int,
) -> bool {
    if cur_bsize == BLOCK_64X64 {
        k == 0 && vt.l1[0][0] < t[0] as int / 2
    } else if cur_bsize == BLOCK_64X32 {
        1 <= k <= 2 && vt.l1[0][k] < t[0] as int / 4
    } else if cur_bsize == BLOCK_32X64 {
        3 <= k <= 4 && vt.l1[0][k] < t[0] as int / 4
    } else if 5 <= k < 9 {
        let q = k - 5;
        &&& grid.visible(mi_row + 8 * (q / 2), mi_col + 8 * (q % 2)) == Some(BLOCK_32X32)
        &&& vt.l2[q] < 5 * t[1] / 8
    } else if 9 <= k < 25 {
        let q = (k - 9) / 4;
        match grid.visible(mi_row + 8 * (q / 2), mi_col + 8 * (q % 2)) {
            Some(b) => is_16_class(b) && vt.l3[k - 9] < t[2] as int / 256,
            None => false,
        }
    } else {
        false
    }
}

/// The same for a 128x128 superblock.
pub open spec fn raised_128(
    grid: MiGrid,
    cur_bsize: int,
    vt: VarianceTree,
    t: [i64; 5],
    mi_col: int,
    mi_row: int,
    k: int,
) -> bool {
    let at64 = |i: int| grid.visible(mi_row + 16 * (i / 2), mi_col + 16 * (i % 2));
    let at32 = |i: int, j: int|
        grid.visible(mi_row + 16 * (i / 2) + 8 * (j / 2), mi_col + 16 * (i % 2) + 8 * (j % 2));
    let split64 = |i: int|
        match at64(i) {
            Some(b) => b != BLOCK_64X64 && b != BLOCK_64X32 && b != BLOCK_32X64,
            None => false,
        };
    let t64 = 5 * t[1] / 8;
    if cur_bsize == BLOCK_128X128 {
        k == 0 && vt.l0[0] < t[0] as int / 2
    } else if cur_bsize == BLOCK_128X64 {
        1 <= k <= 2 && vt.l0[k] < t[0] as int / 4
    } else if cur_bsize == BLOCK_64X128 {
        3 <= k <= 4 && vt.l0[k] < t[0] as int / 4
    } else if 5 <= k < 9 {
        at64(k - 5) == Some(BLOCK_64X64) && vt.l1[k - 5][0] < t64
    } else if 9 <= k < 17 {
        let i = (k - 9) / 2;
        at64(i) == Some(BLOCK_64X32) && vt.l1[i][1 + (k - 9) % 2] < t64 / 2
    } else if 17 <= k < 25 {
        let i = (k - 17) / 2;
        at64(i) == Some(BLOCK_32X64) && vt.l1[i][3 + (k - 17) % 2] < t64 / 2
    } else if 25 <= k < 41 {
        let q = k - 25;
        &&& split64(q / 4)
        &&& at32(q / 4, q % 4) == Some(BLOCK_32X32)
        &&& vt.l2[q] < 5 * t[2] / 8
    } else if 41 <= k < 105 {
        let q = k - 41;
        &&& split64(q / 16)
        &&& match at32(q / 16, (q / 4) % 4) {
            Some(b) => is_16_class(b) && vt.l3[q] < t[3] as int / 256,
            None => false,
        }
    } else {
        false
    }
}

/// Five times a threshold is a 64-bit number.
pub open spec fn five_fits(t: i64) -> bool {
    i64::MIN <= 5 * t <= i64::MAX
}

/// What the flags of a 64x64 superblock are found from can be formed: where the
/// superblock is divided below its halves, the cells of the grid are looked at,
/// and five times the second threshold.
pub open spec fn can_flag_64(
    grid: MiGrid,
    cur_bsize: int,
    t: [i64; 5],
    mi_col: int,
    mi_row: int,
) -> bool {
    cur_bsize != BLOCK_64X64 && cur_bsize != BLOCK_64X32 && cur_bsize != BLOCK_32X64
        ==> grid.addresses(mi_row, mi_col, 8) && five_fits(t[1])
}

/// The same for a 128x128 superblock, with five times the third threshold too.
pub open spec fn can_flag_128(
    grid: MiGrid,
    cur_bsize: int,
    t: [i64; 5],
    mi_col: int,
    mi_row: int,
) -> bool {
    cur_bsize != BLOCK_128X128 && cur_bsize != BLOCK_128X64 && cur_bsize != BLOCK_64X128
        ==> grid.addresses(mi_row, mi_col, 24) && five_fits(t[1]) && five_fits(t[2])
}

/// `x / 2^n` rounded down, for the shifts the thresholds use.
fn floor_shift(x: i64, n: u32) -> (r: i64)
    requires
        n == 1 || n == 2 || n == 3 || n == 8,
    ensures
        n == 1 ==> r == x as int / 2,
        n == 2 ==> r == x as int / 4,
        n == 3 ==> r == x as int / 8,
        n == 8 ==> r == x as int / 256,
{
    assert(x >> 1u32 == x / 2 && x >> 2u32 == x / 4 && x >> 3u32 == x / 8 && x >> 8u32 == x / 256)
        by (bit_vector);
    x >> n
}

proof fn lemma_addresses(
    grid: MiGrid,
    mi_row: int,
    mi_col: int,
    reach: int,
    dr: int,
    dc: int,
)
    requires
        grid.addresses(mi_row, mi_col, reach),
        mi_row >= 0,
        mi_col >= 0,
        0 <= dr <= reach,
        0 <= dc <= reach,
    ensures
        (mi_row + dr) * grid.mi_stride + mi_col + dc <= usize::MAX,
{
    assert((mi_row + dr) * grid.mi_stride <= (mi_row + reach) * grid.mi_stride)
        by (nonlinear_arith)
        requires
            dr <= reach,
    ;
}

fn is_raised_64(
    grid: &MiGrid<'_>,
    cur_bsize: usize,
    vt: &VarianceTree,
    thresholds: &[i64; 5],
    mi_col: usize,
    mi_row: usize,
    k: usize,
) -> (r: bool)
    requires
        can_flag_64(
            *grid,
            cur_bsize as int,
            *thresholds,
            mi_col as int,
            mi_row as int,
        ),
        k < 25,
    ensures
        r == raised_64(
            *grid,
            cur_bsize as int,
            *vt,
            *thresholds,
            mi_col as int,
            mi_row as int,
            k as int,
        ),
{
    if cur_bsize == BLOCK_64X64 {
        return k == 0 && (vt.l1[0][0] as i64) < floor_shift(thresholds[0], 1);
    }
    if cur_bsize == BLOCK_64X32 {
        return 1 <= k && k <= 2 && (vt.l1[0][k] as i64) < floor_shift(thresholds[0], 2);
    }
    if cur_bsize == BLOCK_32X64 {
        return 3 <= k && k <= 4 && (vt.l1[0][k] as i64) < floor_shift(thresholds[0], 2);
    }
    if k < 5 {
        return false;
    }
    let q: usize = if k < 9 { k - 5 } else { (k - 9) / 4 };
    proof {
        lemma_addresses(
            *grid,
            mi_row as int,
            mi_col as int,
            8,
            8 * (q as int / 2),
            8 * (q as int % 2),
        );
    }
    match grid.visible_at(mi_row + 8 * (q / 2), mi_col + 8 * (q % 2)) {
        None => false,
        Some(b) => if k < 9 {
            b == BLOCK_32X32 && (vt.l2[q] as i64) < floor_shift(5 * thresholds[1], 3)
        } else {
            (b == BLOCK_16X16 || b == BLOCK_32X16 || b == BLOCK_16X32) && (vt.l3[k - 9] as i64)
                < floor_shift(thresholds[2], 8)
        },
    }
}

#[verifier::rlimit(50)]
fn is_raised_128(
    grid: &MiGrid<'_>,
    cur_bsize: usize,
    vt: &VarianceTree,
    thresholds: &[i64; 5],
    mi_col: usize,
    mi_row: usize,
    k: usize,
) -> (r: bool)
    requires
        can_flag_128(
            *grid,
            cur_bsize as int,
            *thresholds,
            mi_col as int,
            mi_row as int,
        ),
        k < 105,
    ensures
        r == raised_128(
            *grid,
            cur_bsize as int,
            *vt,
            *thresholds,
            mi_col as int,
            mi_row as int,
            k as int,
        ),
{
    if cur_bsize == BLOCK_128X128 {
        return k == 0 && (vt.l0[0] as i64) < floor_shift(thresholds[0], 1);
    }
    if cur_bsize == BLOCK_128X64 {
        return 1 <= k && k <= 2 && (vt.l0[k] as i64) < floor_shift(thresholds[0], 2);
    }
    if cur_bsize == BLOCK_64X128 {
        return 3 <= k && k <= 4 && (vt.l0[k] as i64) < floor_shift(thresholds[0], 2);
    }
    if k < 5 {
        return false;
    }
    let t64: i64 = floor_shift(5 * thresholds[1], 3);
    let i: usize = if k < 9 {
        k - 5
    } else if k < 17 {
        (k - 9) / 2
    } else if k < 25 {
        (k - 17) / 2
    } else if k < 41 {
        (k - 25) / 4
    } else {
        (k - 41) / 16
    };
    proof {
        lemma_addresses(
            *grid,
            mi_row as int,
            mi_col as int,
            24,
            16 * (i as int / 2),
            16 * (i as int % 2),
        );
    }
    let b64 = match grid.visible_at(mi_row + 16 * (i / 2), mi_col + 16 * (i % 2)) {
        None => {
            return false;
        },
        Some(b) => b,
    };
    if k < 9 {
        return b64 == BLOCK_64X64 && (vt.l1[i][0] as i64) < t64;
    }
    if k < 17 {
        return b64 == BLOCK_64X32 && (vt.l1[i][1 + (k - 9) % 2] as i64) < floor_shift(t64, 1);
    }
    if k < 25 {
        return b64 == BLOCK_32X64 && (vt.l1[i][3 + (k - 17) % 2] as i64) < floor_shift(t64, 1);
    }
    if b64 == BLOCK_64X64 || b64 == BLOCK_64X32 || b64 == BLOCK_32X64 {
        return false;
    }
    let j: usize = if k < 41 { (k - 25) % 4 } else { (k - 41) / 4 % 4 };
    proof {
        lemma_addresses(
            *grid,
            mi_row as int,
            mi_col as int,
            24,
            16 * (i as int / 2) + 8 * (j as int / 2),
            16 * (i as int % 2) + 8 * (j as int % 2),
        );
    }
    match grid.visible_at(
        mi_row + 16 * (i / 2) + 8 * (j / 2),
        mi_col + 16 * (i % 2) + 8 * (j % 2),
    ) {
        None => false,
        Some(b) => if k < 41 {
            b == BLOCK_32X32 && (vt.l2[k - 25] as i64) < floor_shift(5 * thresholds[2], 3)
        } else {
            (b == BLOCK_16X16 || b == BLOCK_32X16 || b == BLOCK_16X32) && (vt.l3[k - 41] as i64)
                < floor_shift(thresholds[3], 8)
        },
    }
}

/// Raise the low-temporal-variance flags of a 64x64 superblock; a flag that is
/// not raised keeps its value.
pub fn set_low_temp_var_flag_64x64(
    grid: &MiGrid<'_>,
    variance_low: &mut [u8; VARIANCE_LOW_LEN],
    cur_bsize: usize,
    vt: &VarianceTree,
    thresholds: &[i64; 5],
    mi_col: usize,
    mi_row: usize,
)
    requires
        can_flag_64(
            *grid,
            cur_bsize as int,
            *thresholds,
            mi_col as int,
            mi_row as int,
        ),
    ensures
        forall|k: int|
            0 <= k < VARIANCE_LOW_LEN ==> #[trigger] final(variance_low)[k] == if raised_64(
                *grid,
                cur_bsize as int,
                *vt,
                *thresholds,
                mi_col as int,
                mi_row as int,
                k,
            ) {
                1
            } else {
                old(variance_low)[k]
            },
{
    for k in 0..25usize
        invariant
            can_flag_64(
                *grid,
                cur_bsize as int,
                *thresholds,
                mi_col as int,
                mi_row as int,
            ),
            forall|i: int| k <= i < VARIANCE_LOW_LEN ==> variance_low[i] == old(variance_low)[i],
            forall|i: int|
                0 <= i < k ==> #[trigger] variance_low[i] == if raised_64(
                    *grid,
                    cur_bsize as int,
                    *vt,
                    *thresholds,
                    mi_col as int,
                    mi_row as int,
                    i,
                ) {
                    1
                } else {
                    old(variance_low)[i]
                },
    {
        if is_raised_64(grid, cur_bsize, vt, thresholds, mi_col, mi_row, k) {
            variance_low[k] = 1;
        }
    }
}

/// Raise the low-temporal-variance flags of a 128x128 superblock; a flag that
/// is not raised keeps its value.
pub fn set_low_temp_var_flag_128x128(
    grid: &MiGrid<'_>,
    variance_low: &mut [u8; VARIANCE_LOW_LEN],
    cur_bsize: usize,
    vt: &VarianceTree,
    thresholds: &[i64; 5],
    mi_col: usize,
    mi_row: usize,
)
    requires
        can_flag_128(
            *grid,
            cur_bsize as int,
            *thresholds,
            mi_col as int,
            mi_row as int,
        ),
    ensures
        forall|k: int|
            0 <= k < VARIANCE_LOW_LEN ==> #[trigger] final(variance_low)[k] == if raised_128(
                *grid,
                cur_bsize as int,
                *vt,
                *thresholds,
                mi_col as int,
                mi_row as int,
                k,
            ) {
                1
            } else {
                old(variance_low)[k]
            },
{
    for k in 0..VARIANCE_LOW_LEN
        invariant
            can_flag_128(
                *grid,
                cur_bsize as int,
                *thresholds,
                mi_col as int,
                mi_row as int,
            ),
            forall|i: int| k <= i < VARIANCE_LOW_LEN ==> variance_low[i] == old(variance_low)[i],
            forall|i: int|
                0 <= i < k ==> #[trigger] variance_low[i] == if raised_128(
                    *grid,
                    cur_bsize as int,
                    *vt,
                    *thresholds,
                    mi_col as int,
                    mi_row as int,
                    i,
                ) {
                    1
                } else {
                    old(variance_low)[i]
                },
    {
        if is_raised_128(grid, cur_bsize, vt, thresholds, mi_col, mi_row, k) {
            variance_low[k] = 1;
        }
    }
}

/// Raise the low-temporal-variance flags of a superblock that was measured
/// against the last frame. Any other reference leaves the flags alone.
pub fn set_low_temp_var_flag(
    grid: &MiGrid<'_>,
    variance_low: &mut [u8; VARIANCE_LOW_LEN],
    cur_bsize: usize,
    vt: &VarianceTree,
    thresholds: &[i64; 5],
    ref_frame_partition: usize,
    mi_col: usize,
    mi_row: usize,
    is_small_sb: bool,
)
    requires
        ref_frame_partition == 1 ==> if is_small_sb {
            can_flag_64(*grid, cur_bsize as int, *thresholds, mi_col as int, mi_row as int)
        } else {
            can_flag_128(*grid, cur_bsize as int, *thresholds, mi_col as int, mi_row as int)
        },
    ensures
        forall|k: int|
            0 <= k < VARIANCE_LOW_LEN ==> #[trigger] final(variance_low)[k] == if ref_frame_partition
                == 1 && (if is_small_sb {
                raised_64(
                    *grid,
                    cur_bsize as int,
                    *vt,
                    *thresholds,
                    mi_col as int,
                    mi_row as int,
                    k,
                )
            } else {
                raised_128(
                    *grid,
                    cur_bsize as int,
                    *vt,
                    *thresholds,
                    mi_col as int,
                    mi_row as int,
                    k,
                )
            }) {
                1
            } else {
                old(variance_low)[k]
            },
{
    if ref_frame_partition != 1 {
        return;
    }
    if is_small_sb {
        set_low_temp_var_flag_64x64(grid, variance_low, cur_bsize, vt, thresholds, mi_col, mi_row);
    } else {
        set_low_temp_var_flag_128x128(
            grid,
            variance_low,
            cur_bsize,
            vt,
            thresholds,
            mi_col,
            mi_row,
        );
    }
}

/// The flag that is read for a block of a 64x64 superblock is the one that was
/// raised for it: a 32x32 block's is raised by the variance of its own 32x32
/// node, a 16x16 block's by that of its own 16x16 node.
pub proof fn law_low_temp_var_reads_back_64(
    grid: MiGrid,
    cur_bsize: int,
    vt: VarianceTree,
    t: [i64; 5],
    sb_row: int,
    sb_col: int,
    i: int,
    j: int,
)
    requires
        sb_row % 16 == 0,
        sb_col % 16 == 0,
        0 <= i < 4,
        0 <= j < 4,
        cur_bsize != BLOCK_64X64 && cur_bsize != BLOCK_64X32 && cur_bsize != BLOCK_32X64,
    ensures
        ({
            let row = sb_row + 8 * (i / 2);
            let col = sb_col + 8 * (i % 2);
            let slot = low_var_slot_64(row, col, BLOCK_32X32 as int);
            &&& slot is Some
            &&& raised_64(grid, cur_bsize, vt, t, sb_col, sb_row, slot.unwrap()) == (grid.visible(
                row,
                col,
            ) == Some(BLOCK_32X32) && vt.l2[i] < 5 * t[1] / 8)
        }),
        ({
            let row = sb_row + 8 * (i / 2) + 4 * (j / 2);
            let col = sb_col + 8 * (i % 2) + 4 * (j % 2);
            let slot = low_var_slot_64(row, col, BLOCK_16X16 as int);
            &&& slot is Some
            &&& raised_64(grid, cur_bsize, vt, t, sb_col, sb_row, slot.unwrap()) == (match grid.visible(
                sb_row + 8 * (i / 2),
                sb_col + 8 * (i % 2),
            ) {
                Some(b) => is_16_class(b) && vt.l3[4 * i + j] < t[2] as int / 256,
                None => false,
            })
        }),
{
}

/// The slots of the 64x64 block `i` of a 128x128 superblock, of its 32x32
/// block `j` and of that one's 16x16 block `m`.
proof fn lemma_slots_128(sb_row: int, sb_col: int, i: int, j: int, m: int)
    requires
        sb_row % 32 == 0,
        sb_col % 32 == 0,
        0 <= i < 4,
        0 <= j < 4,
        0 <= m < 4,
    ensures
        low_var_slot_128(sb_row + 16 * (i / 2), sb_col + 16 * (i % 2), BLOCK_64X64 as int) == Some(
            5 + i,
        ),
        low_var_slot_128(
            sb_row + 16 * (i / 2) + 8 * (j / 2),
            sb_col + 16 * (i % 2) + 8 * (j % 2),
            BLOCK_32X32 as int,
        ) == Some(25 + 4 * i + j),
        low_var_slot_128(
            sb_row + 16 * (i / 2) + 8 * (j / 2) + 4 * (m / 2),
            sb_col + 16 * (i % 2) + 8 * (j % 2) + 4 * (m % 2),
            BLOCK_16X16 as int,
        ) == Some(41 + 16 * i + 4 * j + m),
{
    lemma_digits(sb_row, i / 2, 0, 0);
    lemma_digits(sb_col, i % 2, 0, 0);
    lemma_digits(sb_row, i / 2, j / 2, 0);
    lemma_digits(sb_col, i % 2, j % 2, 0);
    lemma_digits(sb_row, i / 2, j / 2, m / 2);
    lemma_digits(sb_col, i % 2, j % 2, m % 2);
    assert(i == 2 * (i / 2) + i % 2 && j == 2 * (j / 2) + j % 2 && m == 2 * (m / 2) + m % 2);
}

/// The position of a 16x16 block in its superblock, read digit by digit.
proof fn lemma_digits(sb: int, a: int, b: int, c: int)
    requires
        sb % 32 == 0,
        0 <= a <= 1,
        0 <= b <= 1,
        0 <= c <= 1,
    ensures
        (sb + 16 * a + 8 * b + 4 * c) % 32 / 16 == a,
        (sb + 16 * a + 8 * b + 4 * c) % 32 / 8 % 2 == b,
        (sb + 16 * a + 8 * b + 4 * c) % 32 / 4 % 2 == c,
{
    assert((sb + 16 * a + 8 * b + 4 * c) % 32 == 16 * a + 8 * b + 4 * c);
}

/// The flag that is read for a 64x64 block of a 128x128 superblock is the one
/// that the variance of its own node raises.
pub proof fn law_low_temp_var_reads_back_128_at_64(
    grid: MiGrid,
    cur_bsize: int,
    vt: VarianceTree,
    t: [i64; 5],
    sb_row: int,
    sb_col: int,
    i: int,
)
    requires
        sb_row % 32 == 0,
        sb_col % 32 == 0,
        0 <= i < 4,
        cur_bsize != BLOCK_128X128 && cur_bsize != BLOCK_128X64 && cur_bsize != BLOCK_64X128,
    ensures
        ({
            let row = sb_row + 16 * (i / 2);
            let col = sb_col + 16 * (i % 2);
            let slot = low_var_slot_128(row, col, BLOCK_64X64 as int);
            &&& slot is Some
            &&& raised_128(grid, cur_bsize, vt, t, sb_col, sb_row, slot.unwrap()) == (grid.visible(
                row,
                col,
            ) == Some(BLOCK_64X64) && vt.l1[i][0] < 5 * t[1] / 8)
        }),
{
    lemma_slots_128(sb_row, sb_col, i, 0, 0);
}

/// The 64x64 block `i` of a 128x128 superblock is divided below its halves.
pub open spec fn divided_64(grid: MiGrid, sb_row: int, sb_col: int, i: int) -> bool {
    match grid.visible(sb_row + 16 * (i / 2), sb_col + 16 * (i % 2)) {
        Some(b) => b != BLOCK_64X64 && b != BLOCK_64X32 && b != BLOCK_32X64,
        None => false,
    }
}

/// The same of a 32x32 block.
pub proof fn law_low_temp_var_reads_back_128_at_32(
    grid: MiGrid,
    cur_bsize: int,
    vt: VarianceTree,
    t: [i64; 5],
    sb_row: int,
    sb_col: int,
    i: int,
    j: int,
)
    requires
        sb_row % 32 == 0,
        sb_col % 32 == 0,
        0 <= i < 4,
        0 <= j < 4,
        cur_bsize != BLOCK_128X128 && cur_bsize != BLOCK_128X64 && cur_bsize != BLOCK_64X128,
    ensures
        ({
            let row = sb_row + 16 * (i / 2) + 8 * (j / 2);
            let col = sb_col + 16 * (i % 2) + 8 * (j % 2);
            let slot = low_var_slot_128(row, col, BLOCK_32X32 as int);
            &&& slot is Some
            &&& raised_128(grid, cur_bsize, vt, t, sb_col, sb_row, slot.unwrap()) == (divided_64(
                grid,
                sb_row,
                sb_col,
                i,
            ) && grid.visible(row, col) == Some(BLOCK_32X32) && vt.l2[4 * i + j] < 5 * t[2] / 8)
        }),
{
    lemma_slots_128(sb_row, sb_col, i, j, 0);
    let q = 4 * i + j;
    assert(q / 4 == i && q % 4 == j);
}

/// The same of a 16x16 block.
pub proof fn law_low_temp_var_reads_back_128_at_16(
    grid: MiGrid,
    cur_bsize: int,
    vt: VarianceTree,
    t: [i64; 5],
    sb_row: int,
    sb_col: int,
    i: int,
    j: int,
    m: int,
)
    requires
        sb_row % 32 == 0,
        sb_col % 32 == 0,
        0 <= i < 4,
        0 <= j < 4,
        0 <= m < 4,
        cur_bsize != BLOCK_128X128 && cur_bsize != BLOCK_128X64 && cur_bsize != BLOCK_64X128,
    ensures
        ({
            let row = sb_row + 16 * (i / 2) + 8 * (j / 2);
            let col = sb_col + 16 * (i % 2) + 8 * (j % 2);
            let slot = low_var_slot_128(
                row + 4 * (m / 2),
                col + 4 * (m % 2),
                BLOCK_16X16 as int,
            );
            &&& slot is Some
            &&& raised_128(grid, cur_bsize, vt, t, sb_col, sb_row, slot.unwrap()) == (divided_64(
                grid,
                sb_row,
                sb_col,
                i,
            ) && match grid.visible(row, col) {
                Some(b) => is_16_class(b) && vt.l3[16 * i + 4 * j + m] < t[3] as int / 256,
                None => false,
            })
        }),
{
    lemma_slots_128(sb_row, sb_col, i, j, m);
    let q = 16 * i + 4 * j + m;
    assert(q / 16 == i && (q / 4) % 4 == j);
}

/// The record of a quadrant is the difference of the mean of its source and
/// that of its reference, each to nearest, and its square. The four quadrants
/// are the corners of the block.
pub proof fn law_quadrant_holds_its_mean_difference(
    src: spec_fn(int) -> int,
    src_stride: int,
    dst: spec_fn(int) -> int,
    dst_stride: int,
    x16: int,
    y16: int,
    wide: int,
    high: int,
    right: bool,
    lower: bool,
)
    ensures
        ({
            let x = x16 + if right {
                8int
            } else {
                0
            };
            let y = y16 + if lower {
                8int
            } else {
                0
            };
            let idx = (if lower {
                2int
            } else {
                0
            }) + if right {
                1int
            } else {
                0
            };
            let (sq, e) = quad_leaf(
                src,
                src_stride,
                dst,
                dst_stride,
                x16,
                y16,
                wide,
                high,
                idx,
            );
            let a = block_total(src, y * src_stride + x, src_stride, 8, 8);
            let b = block_total(dst, y * dst_stride + x, dst_stride, 8, 8);
            if x < wide && y < high {
                &&& sq == e * e
                &&& exists|m: int, n: int|
                    e == m - n && -32 <= a - #[trigger] (64 * m) < 32 && -32 <= b - #[trigger] (64
                        * n) < 32
            } else {
                sq == 0 && e == 0
            }
        }),
{
    let x = x16 + if right {
        8int
    } else {
        0
    };
    let y = y16 + if lower {
        8int
    } else {
        0
    };
    let a = block_total(src, y * src_stride + x, src_stride, 8, 8);
    let b = block_total(dst, y * dst_stride + x, dst_stride, 8, 8);
    let (m, n) = ((a + 32) / 64, (b + 32) / 64);
    assert(-32 <= a - 64 * m < 32 && -32 <= b - 64 * n < 32);
}

proof fn lemma_fold_extremes(f: spec_fn(int) -> int, n: int, k: int)
    requires
        0 <= k < n,
    ensures
        fold_min(f, n) <= f(k) <= fold_max(f, n),
    decreases n,
{
    if k < n - 1 {
        lemma_fold_extremes(f, n - 1, k);
    }
}

proof fn lemma_fold_met(f: spec_fn(int) -> int, n: int) -> (r: (int, int))
    requires
        n >= 1,
    ensures
        0 <= r.0 < n,
        0 <= r.1 < n,
        f(r.0) == fold_max(f, n),
        f(r.1) == fold_min(f, n),
    decreases n,
{
    if n <= 1 {
        (0, 0)
    } else {
        let (a, b) = lemma_fold_met(f, n - 1);
        (
            if fold_max(f, n - 1) < f(n - 1) {
                n - 1
            } else {
                a
            },
            if f(n - 1) < fold_min(f, n - 1) {
                n - 1
            } else {
                b
            },
        )
    }
}

/// The range of an 8x8 block is how far the absolute differences of source and
/// reference lie apart: no two of its samples differ by more, and two of them
/// differ by that.
pub proof fn law_range_spans_the_differences(
    src: spec_fn(int) -> int,
    src_stride: int,
    dst: spec_fn(int) -> int,
    dst_stride: int,
    x: int,
    y: int,
    r: int,
    c: int,
    v: int,
    u: int,
) -> (w: (int, int, int, int))
    requires
        0 <= r < 8 && 0 <= c < 8 && 0 <= v < 8 && 0 <= u < 8,
    ensures
        ({
            let d = |r: int, c: int|
                abs_int(src((y + r) * src_stride + x + c) - dst((y + r) * dst_stride + x + c));
            let range = range_8x8(src, src_stride, dst, dst_stride, x, y);
            &&& d(r, c) - d(v, u) <= range
            &&& 0 <= w.0 < 8 && 0 <= w.1 < 8 && 0 <= w.2 < 8 && 0 <= w.3 < 8
            &&& d(w.0, w.1) - d(w.2, w.3) == range
        }),
{
    let f = |k: int| diff_8x8(src, src_stride, dst, dst_stride, x, y, k);
    lemma_fold_extremes(f, 64, 8 * r + c);
    lemma_fold_extremes(f, 64, 8 * v + u);
    let (a, b) = lemma_fold_met(f, 64);
    assert((8 * r + c) / 8 == r && (8 * r + c) % 8 == c && (8 * v + u) / 8 == v && (8 * v + u) % 8
        == u);
    (a / 8, a % 8, b / 8, b % 8)
}

/// The flag that is read for an undivided 64x64 superblock, or for a half of
/// one, is the one that its own variance raises: below half of the first
/// threshold for the whole, below a quarter of it for a half.
pub proof fn law_low_temp_var_reads_back_64_at_64(
    grid: MiGrid,
    vt: VarianceTree,
    t: [i64; 5],
    sb_row: int,
    sb_col: int,
    h: int,
)
    requires
        sb_row % 16 == 0,
        sb_col % 16 == 0,
        h == 0 || h == 1,
    ensures
        low_var_slot_64(sb_row, sb_col, BLOCK_64X64 as int) matches Some(k) && raised_64(
            grid,
            BLOCK_64X64 as int,
            vt,
            t,
            sb_col,
            sb_row,
            k,
        ) == (vt.l1[0][0] < t[0] as int / 2),
        low_var_slot_64(sb_row + 8 * h, sb_col, BLOCK_64X32 as int) matches Some(k) && raised_64(
            grid,
            BLOCK_64X32 as int,
            vt,
            t,
            sb_col,
            sb_row,
            k,
        ) == (vt.l1[0][1 + h] < t[0] as int / 4),
        low_var_slot_64(sb_row, sb_col + 8 * h, BLOCK_32X64 as int) matches Some(k) && raised_64(
            grid,
            BLOCK_32X64 as int,
            vt,
            t,
            sb_col,
            sb_row,
            k,
        ) == (vt.l1[0][3 + h] < t[0] as int / 4),
{
}

/// The same of an undivided 128x128 superblock and its halves.
pub proof fn law_low_temp_var_reads_back_128_at_128(
    grid: MiGrid,
    vt: VarianceTree,
    t: [i64; 5],
    sb_row: int,
    sb_col: int,
    h: int,
)
    requires
        sb_row % 32 == 0,
        sb_col % 32 == 0,
        h == 0 || h == 1,
    ensures
        low_var_slot_128(sb_row, sb_col, BLOCK_128X128 as int) matches Some(k) && raised_128(
            grid,
            BLOCK_128X128 as int,
            vt,
            t,
            sb_col,
            sb_row,
            k,
        ) == (vt.l0[0] < t[0] as int / 2),
        low_var_slot_128(sb_row + 16 * h, sb_col, BLOCK_128X64 as int) matches Some(k) && raised_128(
            grid,
            BLOCK_128X64 as int,
            vt,
            t,
            sb_col,
            sb_row,
            k,
        ) == (vt.l0[1 + h] < t[0] as int / 4),
        low_var_slot_128(sb_row, sb_col + 16 * h, BLOCK_64X128 as int) matches Some(k) && raised_128(
            grid,
            BLOCK_64X128 as int,
            vt,
            t,
            sb_col,
            sb_row,
            k,
        ) == (vt.l0[3 + h] < t[0] as int / 4),
{
}

/// More motion is admitted to the zero-motion exit at a higher level and less
/// motion at every level that admits more; without a level nothing is, and
/// medium motion never.
pub proof fn law_stiller_blocks_are_admitted(low: int, high: int, a: SourceSad, b: SourceSad)
    requires
        low <= high,
        a.rank() <= b.rank(),
    ensures
        zeromv_level_admits(low, b) ==> zeromv_level_admits(high, a),
        low <= 0 ==> !zeromv_level_admits(low, a),
        !zeromv_level_admits(low, SourceSad::Med),
        !zeromv_level_admits(low, SourceSad::High),
        high >= 1 ==> zeromv_level_admits(high, SourceSad::Zero),
        high >= 3 ==> zeromv_level_admits(high, SourceSad::Low),
        zeromv_level_admits(1, a) <==> a == SourceSad::Zero,
        zeromv_level_admits(2, a) <==> a == SourceSad::Zero || a == SourceSad::VeryLow,
{
}

/// The thresholds of the zero-motion exit are doubled together, and chroma is
/// held to three quarters of luma, under `strict` to an eighth of that.
pub proof fn law_zeromv_thresholds_keep_their_ratio(cfg: int, strict: bool)
    requires
        cfg >= 0,
    ensures
        zeromv_luma_thresh(cfg, true) == 2 * zeromv_luma_thresh(cfg, false),
        zeromv_chroma_thresh(cfg, true, strict) == zeromv_chroma_thresh(2 * cfg, false, strict),
        ({
            let (y, c) = (zeromv_luma_thresh(cfg, false), zeromv_chroma_thresh(cfg, false, false));
            3 * y - 3 <= 4 * c <= 3 * y
        }),
        ({
            let (c, d) = (
                zeromv_chroma_thresh(cfg, false, false),
                zeromv_chroma_thresh(cfg, false, true),
            );
            8 * d <= c < 8 * d + 8
        }),
{
}

/// A frame that beats the last one is better than it, by more than a tenth
/// unless the layer is an enhancement of a worse one.
pub proof fn law_better_frame_beats_the_last(sad: int, last: int)
    requires
        0 <= last,
    ensures
        beats_last(sad, last, false) <==> 10 * (last - sad) > last,
        beats_last(sad, last, true) <==> sad < last,
        !beats_last(last, last, true) && !beats_last(last, last, false),
{
}

/// The largest and the smallest range bound the range of every quadrant that
/// starts inside the frame.
pub proof fn law_bounds_hold_every_quadrant(
    src: spec_fn(int) -> int,
    src_stride: int,
    dst: spec_fn(int) -> int,
    dst_stride: int,
    x16: int,
    y16: int,
    wide: int,
    high: int,
    n: int,
    q: int,
)
    requires
        0 <= q < n,
        quad_inside(x16, y16, wide, high, q),
    ensures
        ({
            let b = range_bounds(src, src_stride, dst, dst_stride, x16, y16, wide, high, n);
            let v = range_8x8(
                src,
                src_stride,
                dst,
                dst_stride,
                x16 + 8 * (q % 2),
                y16 + 8 * (q / 2),
            );
            b.1 <= v <= b.0
        }),
    decreases n,
{
    if q < n - 1 {
        law_bounds_hold_every_quadrant(
            src,
            src_stride,
            dst,
            dst_stride,
            x16,
            y16,
            wide,
            high,
            n - 1,
            q,
        );
    }
}

/// The bounds are the ranges of quadrants inside the frame: each is met by one,
/// or is what it started from.
pub proof fn law_bounds_are_met(
    src: spec_fn(int) -> int,
    src_stride: int,
    dst: spec_fn(int) -> int,
    dst_stride: int,
    x16: int,
    y16: int,
    wide: int,
    high: int,
    n: int,
)
    ensures
        ({
            let b = range_bounds(src, src_stride, dst, dst_stride, x16, y16, wide, high, n);
            &&& b.0 == 0 || exists|q: int|
                0 <= q < n && #[trigger] quad_inside(x16, y16, wide, high, q) && b.0 == range_8x8(
                    src,
                    src_stride,
                    dst,
                    dst_stride,
                    x16 + quad_x(q),
                    y16 + quad_y(q),
                )
            &&& b.1 == 255 || exists|q: int|
                0 <= q < n && #[trigger] quad_inside(x16, y16, wide, high, q) && b.1 == range_8x8(
                    src,
                    src_stride,
                    dst,
                    dst_stride,
                    x16 + quad_x(q),
                    y16 + quad_y(q),
                )
        }),
    decreases n,
{
    if n > 0 {
        law_bounds_are_met(src, src_stride, dst, dst_stride, x16, y16, wide, high, n - 1);
        assert(quad_inside(x16, y16, wide, high, n - 1) || !quad_inside(
            x16,
            y16,
            wide,
            high,
            n - 1,
        ));
    }
}

} // verus!
