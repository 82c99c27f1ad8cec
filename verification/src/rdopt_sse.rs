//! The squared error of a prediction, and a zero vector dropped for it.

use vstd::prelude::*;

verus! {

/// The luma plane.
pub const AOM_PLANE_Y: usize = 0;

/// Source and prediction of a block in one plane.
pub struct SsePlane<'a> {
    pub src: &'a [u8],
    pub src_stride: usize,
    pub dst: &'a [u8],
    pub dst_stride: usize,
    /// Width and height of the block in this plane.
    pub w: usize,
    pub h: usize,
}

/// Squared difference of two samples.
pub open spec fn sq_diff(a: u8, b: u8) -> int {
    (a - b) * (a - b)
}

/// Squared error of the first `n` samples of a row.
pub open spec fn row_sse(src: Seq<u8>, dst: Seq<u8>, s: int, d: int, n: int) -> int
    decreases n,
{
    if n <= 0 {
        0
    } else {
        row_sse(src, dst, s, d, n - 1) + sq_diff(src[s + n - 1], dst[d + n - 1])
    }
}

impl<'a> SsePlane<'a> {
    /// The block lies in both planes, and is no larger than a superblock.
    pub open spec fn valid(self) -> bool {
        &&& self.w <= 128
        &&& self.h <= 128
        &&& self.h > 0 && self.w > 0 ==> {
            &&& (self.h - 1) * self.src_stride + self.w <= self.src.len()
            &&& (self.h - 1) * self.dst_stride + self.w <= self.dst.len()
        }
    }

    /// Squared error of the first `n` rows.
    pub open spec fn rows_sse(self, n: int) -> int
        decreases n,
    {
        if n <= 0 {
            0
        } else {
            self.rows_sse(n - 1) + row_sse(
                self.src@,
                self.dst@,
                (n - 1) * self.src_stride,
                (n - 1) * self.dst_stride,
                self.w as int,
            )
        }
    }

    /// Squared error of the block.
    pub open spec fn sse(self) -> int {
        self.rows_sse(self.h as int)
    }

    /// See [`Self::sse`].
    fn measure(&self) -> (r: i64)
        requires
            self.valid(),
        ensures
            r == self.sse(),
            0 <= r <= 0x4000_0000,
    {
        let mut total: i64 = 0;
        if self.w == 0 {
            proof {
                self.lemma_no_columns(self.h as int);
            }
            return 0;
        }
        for y in 0..self.h
            invariant
                self.valid(),
                self.w > 0,
                total == self.rows_sse(y as int),
                0 <= total <= 0x80_0000 * y,
        {
            let (s, d): (usize, usize) = (self.src_stride, self.dst_stride);
            assert(0 <= y * s <= (self.h - 1) * s && 0 <= y * d <= (self.h - 1) * d)
                by (nonlinear_arith)
                requires
                    0 <= y <= self.h - 1,
                    0 <= s,
                    0 <= d,
            ;
            let (s, d): (usize, usize) = (y * s, y * d);
            let ghost before = total;
            for x in 0..self.w
                invariant
                    self.w <= 128,
                    s + self.w <= self.src.len(),
                    d + self.w <= self.dst.len(),
                    0 <= before <= 0x4000_0000,
                    total == before + row_sse(self.src@, self.dst@, s as int, d as int, x as int),
                    before <= total <= before + 0x1_0000 * x,
            {
                let diff: i64 = self.src[s + x] as i64 - self.dst[d + x] as i64;
                assert(0 <= diff * diff <= 0x1_0000) by (nonlinear_arith)
                    requires
                        -256 <= diff <= 256,
                ;
                total = total + diff * diff;
            }
        }
        total
    }

    proof fn lemma_no_columns(self, n: int)
        requires
            self.w == 0,
        ensures
            self.rows_sse(n) == 0,
        decreases n,
    {
        if n > 0 {
            self.lemma_no_columns(n - 1);
        }
    }

    /// A prediction equal to the source has no squared error.
    pub proof fn law_exact_prediction_has_no_error(self, n: int)
        requires
            self.src@ == self.dst@,
            self.src_stride == self.dst_stride,
        ensures
            self.rows_sse(n) == 0,
        decreases n,
    {
        if n > 0 {
            self.law_exact_prediction_has_no_error(n - 1);
            lemma_equal_row(self.src@, (n - 1) * self.src_stride, self.w as int);
        }
    }
}

proof fn lemma_equal_row(src: Seq<u8>, s: int, n: int)
    ensures
        row_sse(src, src, s, s, n) == 0,
    decreases n,
{
    if n > 0 {
        lemma_equal_row(src, s, n - 1);
        assert(sq_diff(src[s + n - 1], src[s + n - 1]) == 0);
    }
}

/// Squared error of the first `n` planes.
pub open spec fn planes_sse(planes: Seq<SsePlane>, n: int) -> int
    decreases n,
{
    if n <= 0 {
        0
    } else {
        planes_sse(planes, n - 1) + planes[n - 1].sse()
    }
}

/// Number of planes in which a block is coded.
pub open spec fn coded_planes(planes: Seq<SsePlane>, is_chroma_ref: bool) -> int {
    if !is_chroma_ref && planes.len() > 1 {
        1
    } else {
        planes.len() as int
    }
}

/// Squared error of a block in all planes in which it is coded, times 16, and
/// that of the luma plane.
pub fn get_sse(planes: &[SsePlane<'_>], is_chroma_ref: bool) -> (r: (i64, i64))
    requires
        planes.len() <= 0x1000_0000,
        forall|k: int|
            0 <= k < coded_planes(planes@, is_chroma_ref) ==> #[trigger] planes[k].valid(),
    ensures
        r.0 == 16 * planes_sse(planes@, coded_planes(planes@, is_chroma_ref)),
        r.1 == if planes.len() > 0 {
            planes[AOM_PLANE_Y as int].sse()
        } else {
            0
        },
{
    let coded: usize = if !is_chroma_ref && planes.len() > 1 {
        1
    } else {
        planes.len()
    };
    let mut total: i64 = 0;
    let mut sse_y: i64 = 0;
    for p in 0..coded
        invariant
            coded <= planes.len() <= 0x1000_0000,
            coded == coded_planes(planes@, is_chroma_ref),
            forall|k: int| 0 <= k < coded ==> #[trigger] planes[k].valid(),
            total == planes_sse(planes@, p as int),
            0 <= total <= 0x4000_0000 * p,
            sse_y == if p > 0 {
                planes[0].sse()
            } else {
                0
            },
    {
        let sse: i64 = planes[p].measure();
        total = total + sse;
        if p == AOM_PLANE_Y {
            sse_y = sse;
        }
    }
    (16 * total, sse_y)
}

/// A reference that does not move.
pub const IDENTITY: i32 = 0;

/// No squared error is known.
pub const NO_SINGLE_SSE: u32 = 0x7fff_ffff;

/// Number of references of a pair.
pub open spec fn ref_count(ref_frames: [i32; 2]) -> int {
    if ref_frames[1] > 0 {
        2
    } else {
        1
    }
}

/// The zero vector of a pair can be held against the best known vectors: no
/// reference moves, and each has a known error.
pub open spec fn comparable(
    ref_frames: [i32; 2],
    gm_wmtype: [i32; 8],
    best_single_sse_in_refs: [u32; 8],
) -> bool {
    forall|k: int|
        0 <= k < ref_count(ref_frames) ==> gm_wmtype[#[trigger] ref_frames[k] as int] == IDENTITY
            && best_single_sse_in_refs[ref_frames[k] as int] != NO_SINGLE_SSE
}

/// Sum of the errors of the zero vectors, in 32 bits.
pub open spec fn zero_sum(ref_frames: [i32; 2], zero_mv_sse: Seq<u32>) -> u32 {
    if ref_frames[1] > 0 {
        zero_mv_sse[0].wrapping_add(zero_mv_sse[1])
    } else {
        zero_mv_sse[0]
    }
}

/// Sum of the best known errors, in 32 bits.
pub open spec fn best_sum(ref_frames: [i32; 2], best_single_sse_in_refs: [u32; 8]) -> u32 {
    let first = best_single_sse_in_refs[ref_frames[0] as int];
    if ref_frames[1] > 0 {
        first.wrapping_add(best_single_sse_in_refs[ref_frames[1] as int])
    } else {
        first
    }
}

/// An error is above the best known one, or a quarter above it up to level 1.
pub open spec fn is_worse(level: i32, zero: u32, best: u32) -> bool {
    if level > 1 {
        zero > best
    } else {
        4 * zero > 5 * best
    }
}

/// A zero vector is left out: its error is above the best known one.
pub fn prune_zero_mv_with_sse(
    ref_frames: [i32; 2],
    gm_wmtype: &[i32; 8],
    best_single_sse_in_refs: &[u32; 8],
    zero_mv_sse: &[u32],
    level: i32,
) -> (r: bool)
    requires
        0 <= ref_frames[0] < 8,
        ref_frames[1] < 8,
        comparable(ref_frames, *gm_wmtype, *best_single_sse_in_refs) ==> ref_count(ref_frames)
            <= zero_mv_sse.len(),
    ensures
        r == (comparable(ref_frames, *gm_wmtype, *best_single_sse_in_refs) && is_worse(
            level,
            zero_sum(ref_frames, zero_mv_sse@),
            best_sum(ref_frames, *best_single_sse_in_refs),
        )),
{
    let n: usize = if ref_frames[1] > 0 {
        2
    } else {
        1
    };
    for k in 0..n
        invariant
            0 <= ref_frames[0] < 8,
            ref_frames[1] < 8,
            n == ref_count(ref_frames),
            forall|j: int|
                0 <= j < k ==> gm_wmtype[#[trigger] ref_frames[j] as int] == IDENTITY
                    && best_single_sse_in_refs[ref_frames[j] as int] != NO_SINGLE_SSE,
    {
        let r: usize = ref_frames[k] as usize;
        if gm_wmtype[r] != IDENTITY || best_single_sse_in_refs[r] == NO_SINGLE_SSE {
            assert(!comparable(ref_frames, *gm_wmtype, *best_single_sse_in_refs)) by {
                assert(ref_frames[k as int] == r);
            }
            return false;
        }
    }
    let mut this_sse_sum: u32 = zero_mv_sse[0];
    let mut best_sse_sum: u32 = best_single_sse_in_refs[ref_frames[0] as usize];
    if n == 2 {
        this_sse_sum = this_sse_sum.wrapping_add(zero_mv_sse[1]);
        best_sse_sum = best_sse_sum.wrapping_add(best_single_sse_in_refs[ref_frames[1] as usize]);
    }
    if level > 1 {
        this_sse_sum > best_sse_sum
    } else {
        4 * this_sse_sum as u64 > 5 * best_sse_sum as u64
    }
}

/// What is left out at one level is left out at every higher one.
pub proof fn law_higher_levels_prune_more(low: i32, high: i32, zero: u32, best: u32)
    requires
        low <= high,
        is_worse(low, zero, best),
    ensures
        is_worse(high, zero, best),
{
}

/// Where a sample of a block lies in a plane.
pub open spec fn plane_pos(stride: int, y: int, x: int) -> int {
    y * stride + x
}

impl<'a> SsePlane<'a> {
    /// A prediction that differs from the source in one sample has the square
    /// of that difference for error, wherever in the block the sample lies.
    pub proof fn law_lone_difference_is_squared(self, y: int, x: int)
        requires
            0 <= y < self.h,
            0 <= x < self.w,
            forall|v: int, u: int|
                0 <= v < self.h && 0 <= u < self.w && !(v == y && u == x)
                    ==> #[trigger] self.src@[plane_pos(self.src_stride as int, v, u)]
                    == self.dst@[plane_pos(self.dst_stride as int, v, u)],
        ensures
            ({
                let d = self.src@[plane_pos(self.src_stride as int, y, x)]
                    - self.dst@[plane_pos(self.dst_stride as int, y, x)];
                self.sse() == d * d
            }),
    {
        self.lemma_lone_rows(y, x, self.h as int);
    }

    proof fn lemma_lone_rows(self, y: int, x: int, n: int)
        requires
            0 <= y < self.h,
            0 <= x < self.w,
            0 <= n <= self.h,
            forall|v: int, u: int|
                0 <= v < self.h && 0 <= u < self.w && !(v == y && u == x)
                    ==> #[trigger] self.src@[plane_pos(self.src_stride as int, v, u)]
                    == self.dst@[plane_pos(self.dst_stride as int, v, u)],
        ensures
            self.rows_sse(n) == if y < n {
                sq_diff(
                    self.src@[plane_pos(self.src_stride as int, y, x)],
                    self.dst@[plane_pos(self.dst_stride as int, y, x)],
                )
            } else {
                0
            },
        decreases n,
    {
        if n > 0 {
            self.lemma_lone_rows(y, x, n - 1);
            self.lemma_lone_row(y, x, n - 1, self.w as int);
        }
    }

    proof fn lemma_lone_row(self, y: int, x: int, v: int, n: int)
        requires
            0 <= v < self.h,
            0 <= y < self.h,
            0 <= x < self.w,
            0 <= n <= self.w,
            forall|v: int, u: int|
                0 <= v < self.h && 0 <= u < self.w && !(v == y && u == x)
                    ==> #[trigger] self.src@[plane_pos(self.src_stride as int, v, u)]
                    == self.dst@[plane_pos(self.dst_stride as int, v, u)],
        ensures
            row_sse(self.src@, self.dst@, v * self.src_stride, v * self.dst_stride, n) == if v == y
                && x < n {
                sq_diff(
                    self.src@[plane_pos(self.src_stride as int, y, x)],
                    self.dst@[plane_pos(self.dst_stride as int, y, x)],
                )
            } else {
                0
            },
        decreases n,
    {
        if n > 0 {
            self.lemma_lone_row(y, x, v, n - 1);
            let (a, b) = (
                self.src@[plane_pos(self.src_stride as int, v, n - 1)],
                self.dst@[plane_pos(self.dst_stride as int, v, n - 1)],
            );
            if !(v == y && n - 1 == x) {
                assert(a == b);
                assert((a - b) * (a - b) == 0);
            }
        }
    }
}

/// A block counts in its chroma planes only where it is their reference; in
/// one plane alone it always counts. One more plane adds its own error.
pub proof fn law_chroma_counts_where_referenced(planes: Seq<SsePlane>, is_chroma_ref: bool)
    requires
        planes.len() == 3,
    ensures
        planes_sse(planes, coded_planes(planes, is_chroma_ref)) == planes[0].sse() + (
        if is_chroma_ref {
            planes[1].sse() + planes[2].sse()
        } else {
            0
        }),
        planes_sse(planes.take(1), coded_planes(planes.take(1), is_chroma_ref)) == planes[0].sse(),
{
    reveal_with_fuel(planes_sse, 4);
}

/// A pair is held against its best errors only where each of its references
/// stands still and has one, and the errors of both count.
pub proof fn law_both_references_count(
    ref_frames: [i32; 2],
    best: [u32; 8],
    zero: Seq<u32>,
    gm: [i32; 8],
)
    requires
        0 <= ref_frames[0] < 8,
        0 < ref_frames[1] < 8,
        zero.len() == 2,
        zero[0] + zero[1] <= u32::MAX,
        best[ref_frames[0] as int] + best[ref_frames[1] as int] <= u32::MAX,
    ensures
        zero_sum(ref_frames, zero) == zero[0] + zero[1],
        best_sum(ref_frames, best) == best[ref_frames[0] as int] + best[ref_frames[1] as int],
        comparable(ref_frames, gm, best) <==> {
            &&& gm[ref_frames[0] as int] == IDENTITY
            &&& gm[ref_frames[1] as int] == IDENTITY
            &&& best[ref_frames[0] as int] != NO_SINGLE_SSE
            &&& best[ref_frames[1] as int] != NO_SINGLE_SSE
        },
{
    if comparable(ref_frames, gm, best) {
        assert(gm[ref_frames[0] as int] == IDENTITY);
        assert(gm[ref_frames[1] as int] == IDENTITY);
    }
}

} // verus!
