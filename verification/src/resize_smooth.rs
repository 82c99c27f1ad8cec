//! The smooth scaler: eight taps each way, with the blocks of the output
//! aligned to the source every 16 samples.

use vstd::prelude::*;

use crate::arith::{max_int, min_int, shr_i64};
use crate::resize::clip;
use crate::resize_filters::{smooth_tap, smooth_tap_value};

verus! {

/// Position on the source axis of output sample `d`, in 1/16 samples from the
/// start of its block of 16: the block's own phase, and a whole number of
/// steps.
pub open spec fn offset_in_block(n: int, m: int, d: int) -> int {
    (if n == m {
        0
    } else {
        ((d / 16) * 16 * 16 * n / m + 8) % 16
    }) + (d % 16) * (16 * n / m)
}

/// The source sample at or before output sample `d`.
pub open spec fn source_pel(n: int, m: int, d: int) -> int {
    (d / 16) * 16 * n / m + offset_in_block(n, m, d) / 16
}

/// The phase of output sample `d`.
pub open spec fn source_phase(n: int, m: int, d: int) -> int {
    offset_in_block(n, m, d) % 16
}

/// The sample of a plane, the nearest one outside it.
pub open spec fn edge_sample(src: Seq<u8>, w: int, h: int, y: int, x: int) -> int {
    src[max_int(0, min_int(y, h - 1)) * w + max_int(0, min_int(x, w - 1))] as int
}

/// Sum of the first `n` taps along a row.
pub open spec fn row_taps(src: Seq<u8>, w: int, h: int, y: int, pel: int, phase: int, n: int) -> int
    decreases n,
{
    if n <= 0 {
        0
    } else {
        row_taps(src, w, h, y, pel, phase, n - 1) + edge_sample(src, w, h, y, pel - 3 + n - 1)
            * smooth_tap_value(phase, n - 1)
    }
}

/// A row of the source at output column `dx`.
pub open spec fn row_filtered(src: Seq<u8>, w: int, h: int, w2: int, y: int, dx: int) -> int {
    clip(
        (row_taps(src, w, h, y, source_pel(w, w2, dx), source_phase(w, w2, dx), 8) + 64) / 128,
        255,
    )
}

/// Sum of the first `n` taps along a column of filtered rows.
pub open spec fn column_taps(
    src: Seq<u8>,
    w: int,
    h: int,
    w2: int,
    dx: int,
    pel: int,
    phase: int,
    n: int,
) -> int
    decreases n,
{
    if n <= 0 {
        0
    } else {
        column_taps(src, w, h, w2, dx, pel, phase, n - 1) + row_filtered(
            src,
            w,
            h,
            w2,
            pel - 3 + n - 1,
            dx,
        ) * smooth_tap_value(phase, n - 1)
    }
}

/// The output sample in row `dy` and column `dx`.
pub open spec fn smooth_sample(
    src: Seq<u8>,
    w: int,
    h: int,
    w2: int,
    h2: int,
    dy: int,
    dx: int,
) -> int {
    clip(
        (column_taps(src, w, h, w2, dx, source_pel(h, h2, dy), source_phase(h, h2, dy), 8) + 64)
            / 128,
        255,
    )
}

/// Position and phase of an output sample on the source axis.
fn locate(n: usize, m: usize, d: usize) -> (r: (i64, usize))
    requires
        1 <= n,
        d < m,
        16 * n * m <= 0x7fff_ffff,
    ensures
        r.0 == source_pel(n as int, m as int, d as int),
        r.1 == source_phase(n as int, m as int, d as int),
        r.1 < 16,
        0 <= r.0 <= 0x1_0000_0000,
{
    let ghost (nn, mm, dd) = (n as int, m as int, d as int);
    proof {
        assert(nn <= 16 * nn * mm && mm <= 16 * nn * mm && 16 * nn <= 16 * nn * mm)
            by (nonlinear_arith)
            requires
                nn >= 1,
                mm >= 1,
        ;
        let b = (dd / 16) * 16;
        assert(0 <= b * 16 * nn <= 16 * nn * mm && 0 <= b * nn <= 16 * nn * mm) by (nonlinear_arith)
            requires
                0 <= b <= mm,
                nn >= 1,
        ;
    }
    let block: i64 = (d as i64 / 16) * 16;
    let start: i64 = block * 16 * n as i64;
    let phase0: i64 = if n == m {
        0
    } else {
        (start / m as i64 + 8) % 16
    };
    let step: i64 = 16 * n as i64 / m as i64;
    proof {
        let (a, b) = (16 * nn, mm);
        assert(0 <= a / b <= a) by (nonlinear_arith)
            requires
                a >= 0,
                b >= 1,
        ;
        let r = dd % 16;
        assert(0 <= r * step <= 16 * 0x7fff_ffff) by (nonlinear_arith)
            requires
                0 <= r <= 15,
                0 <= step <= 0x7fff_ffff,
        ;
        let (e, f) = (block * nn, mm);
        assert(0 <= e / f <= e) by (nonlinear_arith)
            requires
                e >= 0,
                f >= 1,
        ;
        let g = start as int;
        assert(0 <= g / f <= g) by (nonlinear_arith)
            requires
                g >= 0,
                f >= 1,
        ;
    }
    let q: i64 = phase0 + (d as i64 % 16) * step;
    assert(q == offset_in_block(nn, mm, dd));
    let pel: i64 = block * n as i64 / m as i64 + q / 16;
    (pel, (q % 16) as usize)
}

fn edge_of(src: &[u8], w: usize, h: usize, y: i64, x: i64) -> (r: i64)
    requires
        1 <= w,
        1 <= h,
        w * h <= src.len(),
        w <= 0x7fff_ffff,
        h <= 0x7fff_ffff,
    ensures
        r == edge_sample(src@, w as int, h as int, y as int, x as int),
        0 <= r <= 255,
{
    let yy: usize = if y < 0 {
        0
    } else if y >= h as i64 {
        h - 1
    } else {
        y as usize
    };
    let xx: usize = if x < 0 {
        0
    } else if x >= w as i64 {
        w - 1
    } else {
        x as usize
    };
    proof {
        let (a, b, c) = (yy as int, w as int, h as int);
        assert(0 <= a * b && a * b + b <= b * c) by (nonlinear_arith)
            requires
                0 <= a,
                a + 1 <= c,
                1 <= b,
        ;
    }
    src[yy * w + xx] as i64
}

fn clip_255(v: i64) -> (r: i64)
    ensures
        r == clip(v as int, 255),
        0 <= r <= 255,
{
    if v < 0 {
        0
    } else if v > 255 {
        255
    } else {
        v
    }
}

fn filter_row(
    src: &[u8],
    w: usize,
    h: usize,
    y: i64,
    pel: i64,
    phase: usize,
    Ghost(w2): Ghost<int>,
    Ghost(dx): Ghost<int>,
) -> (r: i64)
    requires
        1 <= w,
        1 <= h,
        w * h <= src.len(),
        w <= 0x7fff_ffff,
        h <= 0x7fff_ffff,
        phase < 16,
        0 <= pel <= 0x1_0000_0000,
        pel == source_pel(w as int, w2, dx),
        phase == source_phase(w as int, w2, dx),
    ensures
        r == row_filtered(src@, w as int, h as int, w2, y as int, dx),
        0 <= r <= 255,
{
    let mut sum: i64 = 0;
    for k in 0usize..8
        invariant
            1 <= w,
            1 <= h,
            w * h <= src.len(),
            w <= 0x7fff_ffff,
            h <= 0x7fff_ffff,
            phase < 16,
            0 <= pel <= 0x1_0000_0000,
            sum == row_taps(
                src@,
                w as int,
                h as int,
                y as int,
                pel as int,
                phase as int,
                k as int,
            ),
            -0x80_0000 * k <= sum <= 0x80_0000 * k,
    {
        let v: i64 = edge_of(src, w, h, y, pel - 3 + k as i64);
        let f: i64 = smooth_tap(phase, k) as i64;
        assert(-0x80_0000 <= v * f <= 0x80_0000) by (nonlinear_arith)
            requires
                0 <= v <= 255,
                -0x8000 <= f <= 0x7fff,
        ;
        sum = sum + v * f;
    }
    proof {
        crate::arith::lemma_pow2i_values();
    }
    clip_255(shr_i64(sum + 64, 7))
}

fn filter_sample(src: &[u8], w: usize, h: usize, w2: usize, h2: usize, dy: usize, dx: usize) -> (r:
    u8)
    requires
        1 <= w,
        1 <= h,
        w * h <= src.len(),
        dy < h2,
        dx < w2,
        16 * w * w2 <= 0x7fff_ffff,
        16 * h * h2 <= 0x7fff_ffff,
    ensures
        r == smooth_sample(
            src@,
            w as int,
            h as int,
            w2 as int,
            h2 as int,
            dy as int,
            dx as int,
        ),
{
    let (x_pel, x_phase) = locate(w, w2, dx);
    let (y_pel, y_phase) = locate(h, h2, dy);
    proof {
        assert(w <= 16 * w * w2 && h <= 16 * h * h2) by (nonlinear_arith)
            requires
                w >= 1,
                h >= 1,
                w2 >= 1,
                h2 >= 1,
        ;
    }
    let mut sum: i64 = 0;
    for k in 0usize..8
        invariant
            1 <= w,
            1 <= h,
            w * h <= src.len(),
            w <= 0x7fff_ffff,
            h <= 0x7fff_ffff,
            x_phase < 16,
            y_phase < 16,
            0 <= x_pel <= 0x1_0000_0000,
            0 <= y_pel <= 0x1_0000_0000,
            x_pel == source_pel(w as int, w2 as int, dx as int),
            x_phase == source_phase(w as int, w2 as int, dx as int),
            sum == column_taps(
                src@,
                w as int,
                h as int,
                w2 as int,
                dx as int,
                y_pel as int,
                y_phase as int,
                k as int,
            ),
            -0x80_0000 * k <= sum <= 0x80_0000 * k,
    {
        let v: i64 = filter_row(
            src,
            w,
            h,
            y_pel - 3 + k as i64,
            x_pel,
            x_phase,
            Ghost(w2 as int),
            Ghost(dx as int),
        );
        let f: i64 = smooth_tap(y_phase, k) as i64;
        assert(-0x80_0000 <= v * f <= 0x80_0000) by (nonlinear_arith)
            requires
                0 <= v <= 255,
                -0x8000 <= f <= 0x7fff,
        ;
        sum = sum + v * f;
    }
    proof {
        crate::arith::lemma_pow2i_values();
    }
    clip_255(shr_i64(sum + 64, 7)) as u8
}

/// The smooth scaler can be used: no side shrinks to less than a quarter or
/// grows more than sixteenfold, and each ratio is a whole number of sixteenths
/// both ways.
#[must_use]
pub fn has_optimized_scaler(src_w: i32, src_h: i32, dst_w: i32, dst_h: i32) -> (r: bool)
    requires
        0 < src_w <= 0x7ff_ffff,
        0 < src_h <= 0x7ff_ffff,
        0 < dst_w <= 0x7ff_ffff,
        0 < dst_h <= 0x7ff_ffff,
    ensures
        r == (dst_w * 4 >= src_w && dst_h * 4 >= src_h && dst_w <= src_w * 16 && dst_h <= src_h * 16
            && (16 * dst_w) % (src_w as int) == 0 && (16 * src_w) % (dst_w as int) == 0 && (16
            * dst_h) % (src_h as int) == 0 && (16 * src_h) % (dst_h as int) == 0),
{
    dst_w * 4 >= src_w && dst_h * 4 >= src_h && dst_w <= src_w * 16 && dst_h <= src_h * 16 && (16
        * dst_w) % src_w == 0 && (16 * src_w) % dst_w == 0 && (16 * dst_h) % src_h == 0 && (16
        * src_h) % dst_h == 0
}

/// Scale a plane of 8-bit samples, packed row by row, with the smooth filters.
#[must_use]
pub fn optimized_downscale_plane_8bit(
    src: &[u8],
    src_w: usize,
    src_h: usize,
    dst_w: usize,
    dst_h: usize,
) -> (r: Vec<u8>)
    requires
        1 <= src_w,
        1 <= src_h,
        src_w * src_h <= src.len(),
        16 * src_w * dst_w <= 0x7fff_ffff,
        16 * src_h * dst_h <= 0x7fff_ffff,
        dst_w * dst_h <= 0x7fff_ffff,
        dst_h > 0 ==> 15 * (16 * src_h as int / dst_h as int) + 15 < 2048,
    ensures
        r.len() == dst_w * dst_h,
        forall|y: int, x: int|
            0 <= y < dst_h && 0 <= x < dst_w ==> #[trigger] crate::temporal_filter::at(
                r@,
                dst_w as int,
                y,
                x,
            ) == smooth_sample(
                src@,
                src_w as int,
                src_h as int,
                dst_w as int,
                dst_h as int,
                y,
                x,
            ),
{
    let ghost w2 = dst_w as int;
    let mut dst: Vec<u8> = Vec::new();
    assert(0 * w2 == 0) by (nonlinear_arith);
    for y in 0..dst_h
        invariant
            w2 == dst_w,
            1 <= src_w,
            1 <= src_h,
            src_w * src_h <= src.len(),
            16 * src_w * dst_w <= 0x7fff_ffff,
            16 * src_h * dst_h <= 0x7fff_ffff,
            dst.len() == y * w2,
            forall|v: int, u: int|
                0 <= v < y && 0 <= u < w2 ==> #[trigger] crate::temporal_filter::at(dst@, w2, v, u)
                    == smooth_sample(
                    src@,
                    src_w as int,
                    src_h as int,
                    w2,
                    dst_h as int,
                    v,
                    u,
                ),
    {
        assert((y + 1) * w2 == y * w2 + w2) by (nonlinear_arith);
        for x in 0..dst_w
            invariant
                w2 == dst_w,
                y < dst_h,
                1 <= src_w,
                1 <= src_h,
                src_w * src_h <= src.len(),
                16 * src_w * dst_w <= 0x7fff_ffff,
                16 * src_h * dst_h <= 0x7fff_ffff,
                dst.len() == y * w2 + x,
                forall|v: int, u: int|
                    (0 <= v < y && 0 <= u < w2) || (v == y && 0 <= u < x)
                        ==> #[trigger] crate::temporal_filter::at(dst@, w2, v, u) == smooth_sample(
                        src@,
                        src_w as int,
                        src_h as int,
                        w2,
                        dst_h as int,
                        v,
                        u,
                    ),
        {
            let ghost d0 = dst@;
            let sample: u8 = filter_sample(src, src_w, src_h, dst_w, dst_h, y, x);
            dst.push(sample);
            proof {
                assert forall|v: int, u: int|
                    (0 <= v < y && 0 <= u < w2) || (v == y && 0 <= u < x + 1) implies
                    #[trigger] crate::temporal_filter::at(dst@, w2, v, u) == smooth_sample(
                    src@,
                    src_w as int,
                    src_h as int,
                    w2,
                    dst_h as int,
                    v,
                    u,
                ) by {
                    crate::temporal_filter::lemma_cells_apart(w2, v, u, y as int, x as int);
                    if v != y || u != x {
                        assert(crate::temporal_filter::at(d0, w2, v, u)
                            == crate::temporal_filter::at(dst@, w2, v, u));
                    }
                }
            }
        }
    }
    assert(dst_h * w2 == dst_w * dst_h) by (nonlinear_arith)
        requires
            w2 == dst_w,
    ;
    dst
}

/// A side of unchanged length is left as it is: each output sample lies on the
/// source sample of its own position.
pub proof fn law_unchanged_side(n: int, d: int)
    requires
        n >= 1,
        d >= 0,
    ensures
        source_pel(n, n, d) == d,
        source_phase(n, n, d) == 0,
{
    let b = (d / 16) * 16;
    assert((16 * n) / n == 16 && (b * n) / n == b) by (nonlinear_arith)
        requires
            n >= 1,
    ;
    assert((d / 16) * 16 * n / n == b);
}

/// A plane scaled to its own size is itself.
pub proof fn law_same_size_is_identity(src: Seq<u8>, w: int, h: int, y: int, x: int)
    requires
        0 <= x < w,
        0 <= y < h,
    ensures
        smooth_sample(src, w, h, w, h, y, x) == src[y * w + x],
{
    law_unchanged_side(w, x);
    law_unchanged_side(h, y);
    lemma_unit_taps();
    reveal_with_fuel(row_taps, 9);
    reveal_with_fuel(column_taps, 9);
    assert forall|v: int| 0 <= v < h implies #[trigger] row_filtered(src, w, h, w, v, x)
        == edge_sample(src, w, h, v, x) by {}
    assert(edge_sample(src, w, h, y, x) == src[y * w + x]);
}

proof fn lemma_unit_taps()
    ensures
        smooth_tap_value(0, 0) == 0,
        smooth_tap_value(0, 1) == 0,
        smooth_tap_value(0, 2) == 0,
        smooth_tap_value(0, 3) == 128,
        smooth_tap_value(0, 4) == 0,
        smooth_tap_value(0, 5) == 0,
        smooth_tap_value(0, 6) == 0,
        smooth_tap_value(0, 7) == 0,
{
    reveal(smooth_tap_value);
}

/// Where every ratio is a whole number of sixteenths, output sample `d` lies
/// half a sample after `d * n / m` on the source axis, whichever block of 16 it
/// is in; a side of unchanged length is read where it is.
pub proof fn law_place_on_the_source(n: int, m: int, d: int)
    requires
        n >= 1,
        m >= 1,
        d >= 0,
        (16 * n) % m == 0,
    ensures
        n != m ==> m * (16 * source_pel(n, m, d) + source_phase(n, m, d) - 8) == 16 * n * d,
        n == m ==> source_pel(n, m, d) == d && source_phase(n, m, d) == 0,
        0 <= source_phase(n, m, d) < 16,
{
    if n == m {
        law_unchanged_side(n, d);
    } else {
        let s = (16 * n) / m;
        assert(16 * n == m * s) by (nonlinear_arith)
            requires
                s == (16 * n) / m,
                (16 * n) % m == 0,
                m >= 1,
        ;
        let k = d / 16;
        assert(k * 16 * n == m * (k * s)) by (nonlinear_arith)
            requires
                16 * n == m * s,
        ;
        assert(k * 16 * 16 * n == m * (16 * (k * s))) by (nonlinear_arith)
            requires
                16 * n == m * s,
        ;
        vstd::arithmetic::div_mod::lemma_div_multiples_vanish(k * s, m);
        vstd::arithmetic::div_mod::lemma_div_multiples_vanish(16 * (k * s), m);
        let q = (d % 16) * s;
        assert(offset_in_block(n, m, d) == 8 + q);
        let p = 16 * source_pel(n, m, d) + source_phase(n, m, d);
        assert(p == 16 * (k * s) + 8 + q);
        assert(m * (16 * (k * s) + q) == 16 * n * d) by (nonlinear_arith)
            requires
                q == (d % 16) * s,
                d == 16 * k + d % 16,
                16 * n == m * s,
        ;
    }
}

/// The taps of every smooth filter add up to one, in 1/128 units.
#[verifier::spinoff_prover]
pub proof fn law_smooth_taps_add_up(phase: int)
    requires
        0 <= phase < 16,
    ensures
        smooth_tap_value(phase, 0) + smooth_tap_value(phase, 1) + smooth_tap_value(phase, 2)
            + smooth_tap_value(phase, 3) + smooth_tap_value(phase, 4) + smooth_tap_value(phase, 5)
            + smooth_tap_value(phase, 6) + smooth_tap_value(phase, 7) == 128,
{
    reveal(smooth_tap_value);
}

/// Of the two middle taps the one of the nearer sample is the larger.
#[verifier::spinoff_prover]
pub proof fn law_nearer_smooth_tap_is_larger(phase: int)
    requires
        0 <= phase < 16,
    ensures
        phase <= 8 ==> smooth_tap_value(phase, 3) >= smooth_tap_value(phase, 4),
        phase >= 8 ==> smooth_tap_value(phase, 3) <= smooth_tap_value(phase, 4),
{
    reveal(smooth_tap_value);
}

/// Source sample `i` of a side of `n` lies within four samples of the place of
/// output sample `d`, or is the last one before such a place.
pub open spec fn is_near(n: int, m: int, d: int, i: int) -> bool {
    let off = m * (16 * i - 8) - 16 * n * d;
    (-64 * m <= off || i == n - 1) && (off <= 64 * m || i == 0)
}

proof fn lemma_reads_near(n: int, m: int, d: int, k: int)
    requires
        n >= 1,
        m >= 1,
        d >= 0,
        (16 * n) % m == 0,
        0 <= k < 8,
    ensures
        is_near(n, m, d, max_int(0, min_int(source_pel(n, m, d) - 3 + k, n - 1))),
{
    law_place_on_the_source(n, m, d);
    let (pel, phase) = (source_pel(n, m, d), source_phase(n, m, d));
    let i = pel - 3 + k;
    let j = max_int(0, min_int(i, n - 1));
    let off = m * (16 * i - 8) - 16 * n * d;
    let offj = m * (16 * j - 8) - 16 * n * d;
    if n == m {
        assert(16 * n * d == m * (16 * d)) by (nonlinear_arith)
            requires
                n == m,
        ;
        let e = 16 * (k - 3) - 8;
        assert(off == m * e) by (nonlinear_arith)
            requires
                off == m * (16 * i - 8) - m * (16 * d),
                i == d - 3 + k,
                e == 16 * (k - 3) - 8,
        ;
        assert(-64 * m <= off <= 64 * m) by (nonlinear_arith)
            requires
                off == m * e,
                -56 <= e <= 56,
                m >= 1,
        ;
    } else {
        let e = 16 * (k - 3) - phase;
        assert(off == m * e) by (nonlinear_arith)
            requires
                off == m * (16 * i - 8) - 16 * n * d,
                m * (16 * pel + phase - 8) == 16 * n * d,
                i == pel - 3 + k,
                e == 16 * (k - 3) - phase,
        ;
        assert(-64 * m <= off <= 64 * m) by (nonlinear_arith)
            requires
                off == m * e,
                -63 <= e <= 64,
                m >= 1,
        ;
    }
    assert((i <= j ==> off <= offj) && (i >= j ==> off >= offj)) by (nonlinear_arith)
        requires
            off == m * (16 * i - 8) - 16 * n * d,
            offj == m * (16 * j - 8) - 16 * n * d,
            m >= 1,
    ;
}

proof fn lemma_row_reads(src: Seq<u8>, w: int, h: int, y: int, pel: int, phase: int, c: int)
    requires
        0 <= phase < 16,
        forall|k: int| 0 <= k < 8 ==> #[trigger] edge_sample(src, w, h, y, pel - 3 + k) == c,
    ensures
        row_taps(src, w, h, y, pel, phase, 8) == 128 * c,
{
    law_smooth_taps_add_up(phase);
    reveal_with_fuel(row_taps, 9);
    let f = |k: int| smooth_tap_value(phase, k);
    assert(edge_sample(src, w, h, y, pel - 3 + 0) == c && edge_sample(src, w, h, y, pel - 3 + 1)
        == c && edge_sample(src, w, h, y, pel - 3 + 2) == c && edge_sample(
        src,
        w,
        h,
        y,
        pel - 3 + 3,
    ) == c && edge_sample(src, w, h, y, pel - 3 + 4) == c && edge_sample(src, w, h, y, pel - 3 + 5)
        == c && edge_sample(src, w, h, y, pel - 3 + 6) == c && edge_sample(
        src,
        w,
        h,
        y,
        pel - 3 + 7,
    ) == c);
    let total = f(0) + f(1) + f(2) + f(3) + f(4) + f(5) + f(6) + f(7);
    assert(c * f(0) + c * f(1) + c * f(2) + c * f(3) + c * f(4) + c * f(5) + c * f(6) + c * f(7)
        == 128 * c) by (nonlinear_arith)
        requires
            total == f(0) + f(1) + f(2) + f(3) + f(4) + f(5) + f(6) + f(7),
            total == 128,
    ;
}

/// A scaled plane keeps everything in its place: where the source has one value
/// all around the place of an output sample, up to four samples off each way,
/// the output sample has that value. Past an edge its outermost samples count.
pub proof fn law_plane_is_scaled_in_place(
    src: Seq<u8>,
    w: int,
    h: int,
    w2: int,
    h2: int,
    dy: int,
    dx: int,
    c: u8,
)
    requires
        1 <= w && 1 <= h && 1 <= w2 && 1 <= h2,
        (16 * w) % w2 == 0,
        (16 * h) % h2 == 0,
        0 <= dx,
        0 <= dy,
        forall|y: int, x: int|
            0 <= y < h && 0 <= x < w && is_near(h, h2, dy, y) && is_near(w, w2, dx, x)
                ==> #[trigger] crate::temporal_filter::at(src, w, y, x) == c,
    ensures
        smooth_sample(src, w, h, w2, h2, dy, dx) == c,
{
    let (px, fx) = (source_pel(w, w2, dx), source_phase(w, w2, dx));
    let (py, fy) = (source_pel(h, h2, dy), source_phase(h, h2, dy));
    law_place_on_the_source(w, w2, dx);
    law_place_on_the_source(h, h2, dy);
    assert forall|k: int| 0 <= k < 8 implies #[trigger] row_filtered(src, w, h, w2, py - 3 + k, dx)
        == c by {
        lemma_reads_near(h, h2, dy, k);
        let y = max_int(0, min_int(py - 3 + k, h - 1));
        assert forall|l: int| 0 <= l < 8 implies #[trigger] edge_sample(
            src,
            w,
            h,
            py - 3 + k,
            px - 3 + l,
        ) == c by {
            lemma_reads_near(w, w2, dx, l);
            let x = max_int(0, min_int(px - 3 + l, w - 1));
            assert(crate::temporal_filter::at(src, w, y, x) == c);
        }
        lemma_row_reads(src, w, h, py - 3 + k, px, fx, c as int);
    }
    law_smooth_taps_add_up(fy);
    reveal_with_fuel(column_taps, 9);
    let f = |k: int| smooth_tap_value(fy, k);
    let v = c as int;
    assert(row_filtered(src, w, h, w2, py - 3 + 0, dx) == c && row_filtered(
        src,
        w,
        h,
        w2,
        py - 3 + 1,
        dx,
    ) == c && row_filtered(src, w, h, w2, py - 3 + 2, dx) == c && row_filtered(
        src,
        w,
        h,
        w2,
        py - 3 + 3,
        dx,
    ) == c && row_filtered(src, w, h, w2, py - 3 + 4, dx) == c && row_filtered(
        src,
        w,
        h,
        w2,
        py - 3 + 5,
        dx,
    ) == c && row_filtered(src, w, h, w2, py - 3 + 6, dx) == c && row_filtered(
        src,
        w,
        h,
        w2,
        py - 3 + 7,
        dx,
    ) == c);
    let total = f(0) + f(1) + f(2) + f(3) + f(4) + f(5) + f(6) + f(7);
    assert(v * f(0) + v * f(1) + v * f(2) + v * f(3) + v * f(4) + v * f(5) + v * f(6) + v * f(7)
        == 128 * v) by (nonlinear_arith)
        requires
            total == f(0) + f(1) + f(2) + f(3) + f(4) + f(5) + f(6) + f(7),
            total == 128,
    ;
}

} // verus!
