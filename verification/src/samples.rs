//! Sums and extremes over rows and blocks of samples.

use vstd::prelude::*;

verus! {

/// Absolute value.
pub open spec fn abs_int(a: int) -> int {
    if a < 0 {
        -a
    } else {
        a
    }
}

/// Sum of `p` over the `n` positions from `off` on.
pub open spec fn row_total(p: spec_fn(int) -> int, off: int, n: int) -> int
    decreases n,
{
    if n <= 0 {
        0
    } else {
        row_total(p, off, n - 1) + p(off + n - 1)
    }
}

/// Sum of `p` over `h` rows of `w` positions, `stride` apart.
pub open spec fn block_total(p: spec_fn(int) -> int, off: int, stride: int, w: int, h: int) -> int
    decreases h,
{
    if h <= 0 {
        0
    } else {
        block_total(p, off, stride, w, h - 1) + row_total(p, off + (h - 1) * stride, w)
    }
}

/// The largest of `f(0), .., f(n - 1)`.
pub open spec fn fold_max(f: spec_fn(int) -> int, n: int) -> int
    decreases n,
{
    if n <= 1 {
        f(0)
    } else {
        let m = fold_max(f, n - 1);
        if m < f(n - 1) {
            f(n - 1)
        } else {
            m
        }
    }
}

/// The smallest of `f(0), .., f(n - 1)`.
pub open spec fn fold_min(f: spec_fn(int) -> int, n: int) -> int
    decreases n,
{
    if n <= 1 {
        f(0)
    } else {
        let m = fold_min(f, n - 1);
        if f(n - 1) < m {
            f(n - 1)
        } else {
            m
        }
    }
}

/// A sum over a block changes only with the samples in it.
pub proof fn lemma_block_total_same(
    p: spec_fn(int) -> int,
    q: spec_fn(int) -> int,
    off_p: int,
    stride_p: int,
    off_q: int,
    stride_q: int,
    w: int,
    h: int,
)
    requires
        forall|r: int, c: int|
            0 <= r < h && 0 <= c < w ==> p(off_p + r * stride_p + c) == #[trigger] q(
                off_q + r * stride_q + c,
            ),
    ensures
        block_total(p, off_p, stride_p, w, h) == block_total(q, off_q, stride_q, w, h),
    decreases h,
{
    if h > 0 {
        lemma_block_total_same(p, q, off_p, stride_p, off_q, stride_q, w, h - 1);
        let r = h - 1;
        assert forall|c: int| 0 <= c < w implies p(off_p + r * stride_p + c) == #[trigger] q(
            off_q + r * stride_q + c,
        ) by {}
        lemma_row_total_same(p, q, off_p + r * stride_p, off_q + r * stride_q, w);
    }
}

/// A sum over a row changes only with the samples in it.
pub proof fn lemma_row_total_same(
    p: spec_fn(int) -> int,
    q: spec_fn(int) -> int,
    off_p: int,
    off_q: int,
    n: int,
)
    requires
        forall|c: int| 0 <= c < n ==> p(off_p + c) == #[trigger] q(off_q + c),
    ensures
        row_total(p, off_p, n) == row_total(q, off_q, n),
    decreases n,
{
    if n > 0 {
        lemma_row_total_same(p, q, off_p, off_q, n - 1);
        assert(p(off_p + (n - 1)) == q(off_q + (n - 1)));
    }
}

/// Of two sums over a block that differ in one position alone, the difference
/// is that of the two values there.
pub proof fn lemma_block_total_one(
    p: spec_fn(int) -> int,
    q: spec_fn(int) -> int,
    off: int,
    stride: int,
    w: int,
    h: int,
    r: int,
    c: int,
)
    requires
        0 <= r < h,
        0 <= c < w,
        forall|v: int, u: int|
            0 <= v < h && 0 <= u < w && (v != r || u != c) ==> p(off + v * stride + u)
                == #[trigger] q(off + v * stride + u),
    ensures
        block_total(p, off, stride, w, h) - block_total(q, off, stride, w, h) == p(
            off + r * stride + c,
        ) - q(off + r * stride + c),
    decreases h,
{
    let at = off + (h - 1) * stride;
    if r < h - 1 {
        lemma_block_total_one(p, q, off, stride, w, h - 1, r, c);
        assert forall|u: int| 0 <= u < w implies p(at + u) == #[trigger] q(at + u) by {
            assert(p(off + (h - 1) * stride + u) == q(off + (h - 1) * stride + u));
        }
        lemma_row_total_same(p, q, at, at, w);
    } else {
        lemma_block_total_same(p, q, off, stride, off, stride, w, h - 1);
        assert forall|u: int| 0 <= u < w && u != c implies p(at + u) == #[trigger] q(at + u) by {
            assert(p(off + (h - 1) * stride + u) == q(off + (h - 1) * stride + u));
        }
        lemma_row_total_one(p, q, at, w, c);
    }
}

proof fn lemma_row_total_one(
    p: spec_fn(int) -> int,
    q: spec_fn(int) -> int,
    off: int,
    n: int,
    c: int,
)
    requires
        0 <= c < n,
        forall|u: int| 0 <= u < n && u != c ==> p(off + u) == #[trigger] q(off + u),
    ensures
        row_total(p, off, n) - row_total(q, off, n) == p(off + c) - q(off + c),
    decreases n,
{
    if c < n - 1 {
        lemma_row_total_one(p, q, off, n - 1, c);
        assert(p(off + (n - 1)) == q(off + (n - 1)));
    } else {
        lemma_row_total_same(p, q, off, off, n - 1);
    }
}

} // verus!
