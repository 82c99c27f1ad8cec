//! Telling screen content from camera content by counting the colours of
//! 16x16 blocks.

use vstd::prelude::*;

use crate::arith::{max_int, shr_i64};
use crate::samples::{block_total, row_total};

verus! {

/// Side of a block.
pub const BLOCK: usize = 16;

/// Most colours of a block without smoothed edges.
pub const SIMPLE_COLOR_THRESH: i32 = 4;

/// Most colours of a block that may have smoothed edges.
pub const COMPLEX_INITIAL_COLOR_THRESH: i32 = 40;

/// Most colours of such a block once its edges are taken off.
pub const COMPLEX_FINAL_COLOR_THRESH: i32 = 6;

/// Variance of a sample above which a block has texture.
pub const VAR_THRESH: u32 = 5;

/// What is decided of a frame.
#[derive(Clone, Copy, Debug, PartialEq, Eq, Structural)]
pub struct ScreenContentDecision {
    pub allow_screen_content_tools: bool,
    /// Blocks may be copied from within the frame.
    pub allow_intrabc: bool,
    pub is_screen_content_type: bool,
    /// Number of blocks with few colours.
    pub count_palette: i64,
    /// Number of those with texture.
    pub count_intrabc: i64,
    /// Number of blocks with many colours.
    pub count_photo: i64,
}

impl ScreenContentDecision {
    /// Nothing is allowed, and nothing was counted.
    pub fn detection_disabled() -> (r: Self)
        ensures
            r == (ScreenContentDecision {
                allow_screen_content_tools: false,
                allow_intrabc: false,
                is_screen_content_type: false,
                count_palette: 0,
                count_intrabc: 0,
                count_photo: 0,
            }),
    {
        ScreenContentDecision {
            allow_screen_content_tools: false,
            allow_intrabc: false,
            is_screen_content_type: false,
            count_palette: 0,
            count_intrabc: 0,
            count_photo: 0,
        }
    }

    /// The sequence prescribes both tools, or forbids them.
    pub fn forced(on: bool) -> (r: Self)
        ensures
            r == (ScreenContentDecision {
                allow_screen_content_tools: on,
                allow_intrabc: on,
                is_screen_content_type: false,
                count_palette: 0,
                count_intrabc: 0,
                count_photo: 0,
            }),
    {
        let mut d = Self::detection_disabled();
        d.allow_screen_content_tools = on;
        d.allow_intrabc = on;
        d
    }

    /// The user declares the content to be a screen's.
    pub fn tuned_screen() -> (r: Self)
        ensures
            r == (ScreenContentDecision {
                allow_screen_content_tools: true,
                allow_intrabc: true,
                is_screen_content_type: true,
                count_palette: 0,
                count_intrabc: 0,
                count_photo: 0,
            }),
    {
        let mut d = Self::detection_disabled();
        d.allow_screen_content_tools = true;
        d.allow_intrabc = true;
        d.is_screen_content_type = true;
        d
    }
}

/// The samples of a block, row by row.
pub open spec fn flat_block(blk: Seq<u8>, stride: int, rows: int, cols: int) -> Seq<u8> {
    Seq::new((rows * cols) as nat, |k: int| blk[(k / cols) * stride + k % cols])
}

/// `v` is among the first `n` samples.
pub open spec fn appears(s: Seq<u8>, n: int, v: int) -> bool {
    exists|k: int| 0 <= k < n && #[trigger] s[k] == v
}

/// Number of values below `m` among the first `n` samples.
pub open spec fn distinct_below(s: Seq<u8>, n: int, m: int) -> int
    decreases m,
{
    if m <= 0 {
        0
    } else {
        distinct_below(s, n, m - 1) + (if appears(s, n, m - 1) {
            1int
        } else {
            0
        })
    }
}

/// Number of different values among the first `n` samples.
pub open spec fn distinct(s: Seq<u8>, n: int) -> int {
    distinct_below(s, n, 256)
}

proof fn lemma_distinct_step(s: Seq<u8>, n: int, m: int)
    requires
        0 <= n < s.len(),
        0 <= m <= 256,
    ensures
        distinct_below(s, n + 1, m) == distinct_below(s, n, m) + (if s[n] < m && !appears(
            s,
            n,
            s[n] as int,
        ) {
            1int
        } else {
            0
        }),
    decreases m,
{
    if m > 0 {
        lemma_distinct_step(s, n, m - 1);
        let v = m - 1;
        if appears(s, n, v) {
            let k = choose|k: int| 0 <= k < n && #[trigger] s[k] == v;
            assert(s[k] == v && k < n + 1);
        } else if s[n] == v {
            assert(appears(s, n + 1, v));
        } else {
            assert(!appears(s, n + 1, v));
        }
    }
}

proof fn lemma_distinct_monotone(s: Seq<u8>, n: int, m: int)
    requires
        0 <= n <= m <= s.len(),
    ensures
        distinct(s, n) <= distinct(s, m),
    decreases m,
{
    if n < m {
        lemma_distinct_monotone(s, n, m - 1);
        lemma_distinct_step(s, m - 1, 256);
    }
}

proof fn lemma_distinct_none(s: Seq<u8>, m: int)
    ensures
        distinct_below(s, 0, m) == 0,
    decreases m,
{
    if m > 0 {
        lemma_distinct_none(s, m - 1);
    }
}

proof fn lemma_flat_index(rows: int, cols: int, r: int, c: int)
    requires
        0 <= r < rows,
        0 <= c < cols,
    ensures
        (r * cols + c) / cols == r,
        (r * cols + c) % cols == c,
        0 <= r * cols + c < rows * cols,
{
    vstd::arithmetic::div_mod::lemma_fundamental_div_mod_converse(r * cols + c, cols, r, c);
    assert(0 <= r * cols && r * cols + cols <= rows * cols) by (nonlinear_arith)
        requires
            0 <= r,
            r + 1 <= rows,
            0 <= cols,
    ;
}

/// The rows of a block lie in a buffer.
pub open spec fn rows_fit(len: int, stride: int, rows: int, cols: int) -> bool {
    forall|r: int| 0 <= r < rows ==> #[trigger] row_stop(stride, cols, r) <= len
}

pub open spec fn row_stop(stride: int, cols: int, r: int) -> int {
    r * stride + cols
}

/// Count the colours of a block, up to one more than `threshold`. The flag
/// tells whether the count is complete.
pub fn count_colors_with_threshold(
    blk: &[u8],
    stride: usize,
    rows: usize,
    cols: usize,
    threshold: i32,
) -> (r: (bool, i32))
    requires
        rows_fit(blk.len() as int, stride as int, rows as int, cols as int),
    ensures
        ({
            let n = distinct(
                flat_block(blk@, stride as int, rows as int, cols as int),
                rows * cols,
            );
            &&& r.0 == (n == 0 || n <= threshold)
            &&& r.1 == if r.0 {
                n
            } else {
                max_int(threshold as int, 0) + 1
            }
        }),
{
    let ghost s = flat_block(blk@, stride as int, rows as int, cols as int);
    let ghost (st, rr, cc) = (stride as int, rows as int, cols as int);
    let mut seen: [bool; 256] = [false; 256];
    let mut n: i32 = 0;
    proof {
        lemma_distinct_none(s, 256);
        assert(0 * cc == 0) by (nonlinear_arith);
        assert(0 <= rr * cc) by (nonlinear_arith)
            requires
                0 <= rr,
                0 <= cc,
        ;
    }
    for r in 0..rows
        invariant
            st == stride,
            rr == rows,
            cc == cols,
            0 <= rr * cc,
            s == flat_block(blk@, st, rr, cc),
            rows_fit(blk.len() as int, st, rr, cc),
            n == distinct(s, r * cc),
            0 <= n <= 256,
            n == 0 || n <= threshold,
            forall|v: int| 0 <= v < 256 ==> #[trigger] seen[v] == appears(s, r * cc, v),
    {
        assert(row_stop(st, cc, r as int) <= blk.len());
        assert(0 <= r * st) by (nonlinear_arith)
            requires
                0 <= r,
                0 <= st,
        ;
        assert((r + 1) * cc == r * cc + cc) by (nonlinear_arith);
        for c in 0..cols
            invariant
                st == stride,
                rr == rows,
                cc == cols,
                r < rows,
                0 <= rr * cc,
                s == flat_block(blk@, st, rr, cc),
                0 <= r * st,
                r * st + cc <= blk.len(),
                n == distinct(s, r * cc + c),
                0 <= n <= 256,
                n == 0 || n <= threshold,
                forall|v: int| 0 <= v < 256 ==> #[trigger] seen[v] == appears(s, r * cc + c, v),
        {
            let v: usize = blk[r * stride + c] as usize;
            let ghost k = r * cc + c;
            proof {
                lemma_flat_index(rr, cc, r as int, c as int);
                assert(s[k] == v);
                lemma_distinct_step(s, k, 256);
                lemma_distinct_bound(s, k + 1, 256);
            }
            if !seen[v] {
                seen[v] = true;
                n = n + 1;
                if n > threshold {
                    proof {
                        lemma_distinct_monotone(s, k + 1, rr * cc);
                    }
                    return (false, n);
                }
            }
            assert forall|u: int| 0 <= u < 256 implies #[trigger] seen[u] == appears(s, k + 1, u) by {
                lemma_appears_step(s, k, u);
            }
        }
    }
    proof {
        lemma_distinct_bound(s, rr * cc, 256);
    }
    (true, n)
}

proof fn lemma_appears_step(s: Seq<u8>, n: int, v: int)
    requires
        0 <= n < s.len(),
    ensures
        appears(s, n + 1, v) == (appears(s, n, v) || s[n] == v),
{
    if appears(s, n, v) {
        let k = choose|k: int| 0 <= k < n && #[trigger] s[k] == v;
        assert(s[k] == v && k < n + 1);
    } else if s[n] == v {
        assert(appears(s, n + 1, v));
    }
}

proof fn lemma_distinct_bound(s: Seq<u8>, n: int, m: int)
    requires
        0 <= m,
    ensures
        0 <= distinct_below(s, n, m) <= m,
    decreases m,
{
    if m > 0 {
        lemma_distinct_bound(s, n, m - 1);
    }
}

/// How often `v` is among the first `n` samples.
pub open spec fn occurrences(s: Seq<u8>, n: int, v: u8) -> int
    decreases n,
{
    if n <= 0 {
        0
    } else {
        occurrences(s, n - 1, v) + (if s[n - 1] == v {
            1int
        } else {
            0
        })
    }
}

/// The value that first reaches the largest count among the first `n`
/// samples, and that count.
pub open spec fn dominant(s: Seq<u8>, n: int) -> (u8, int)
    decreases n,
{
    if n <= 0 {
        (0, 0)
    } else {
        let before = dominant(s, n - 1);
        let v = s[n - 1];
        if occurrences(s, n, v) > before.1 {
            (v, occurrences(s, n, v))
        } else {
            before
        }
    }
}

/// The dominant value occurs most often.
pub proof fn law_dominant_is_most_frequent(s: Seq<u8>, n: int, v: u8)
    requires
        0 <= n <= s.len(),
    ensures
        occurrences(s, n, dominant(s, n).0) == dominant(s, n).1 || n == 0,
        occurrences(s, n, v) <= dominant(s, n).1,
        n > 0 ==> dominant(s, n).1 >= 1,
    decreases n,
{
    if n > 0 {
        law_dominant_is_most_frequent(s, n - 1, v);
        law_dominant_is_most_frequent(s, n - 1, s[n - 1]);
        law_dominant_is_most_frequent(s, n - 1, dominant(s, n - 1).0);
        assert(occurrences(s, 0, s[n - 1]) == 0);
    }
}

/// The dominant value was the first to reach its count: after `k` samples it
/// had, and no other value.
pub proof fn law_dominant_came_first(s: Seq<u8>, n: int) -> (k: int)
    requires
        0 < n <= s.len(),
    ensures
        0 < k <= n,
        occurrences(s, k, dominant(s, n).0) == dominant(s, n).1,
        forall|w: u8|
            w != dominant(s, n).0 ==> #[trigger] occurrences(s, k, w) < dominant(s, n).1,
    decreases n,
{
    let v = s[n - 1];
    let before = dominant(s, n - 1);
    if occurrences(s, n, v) > before.1 {
        assert forall|w: u8| w != v implies #[trigger] occurrences(s, n, w) < dominant(s, n).1 by {
            law_dominant_is_most_frequent(s, n - 1, w);
        }
        n
    } else {
        if n == 1 {
            assert(occurrences(s, 0, v) == 0);
            assert(occurrences(s, 1, v) == 1);
        }
        law_dominant_came_first(s, n - 1)
    }
}

/// The most frequent value of a block; of several the one that first reaches
/// the count.
pub fn find_dominant_value(blk: &[u8], stride: usize, rows: usize, cols: usize) -> (r: u8)
    requires
        rows_fit(blk.len() as int, stride as int, rows as int, cols as int),
        rows * cols <= u32::MAX,
    ensures
        r == dominant(
            flat_block(blk@, stride as int, rows as int, cols as int),
            rows * cols,
        ).0,
{
    let ghost s = flat_block(blk@, stride as int, rows as int, cols as int);
    let ghost (st, rr, cc) = (stride as int, rows as int, cols as int);
    let mut count: [u32; 256] = [0; 256];
    let mut dom_count: u32 = 0;
    let mut dom: u8 = 0;
    proof {
        assert(0 * cc == 0) by (nonlinear_arith);
    }
    for r in 0..rows
        invariant
            st == stride,
            rr == rows,
            cc == cols,
            rr * cc <= u32::MAX,
            s == flat_block(blk@, st, rr, cc),
            rows_fit(blk.len() as int, st, rr, cc),
            (dom, dom_count as int) == dominant(s, r * cc),
            forall|v: int|
                0 <= v < 256 ==> #[trigger] count[v] == occurrences(s, r * cc, v as u8),
    {
        assert(row_stop(st, cc, r as int) <= blk.len());
        assert(0 <= r * st) by (nonlinear_arith)
            requires
                0 <= r,
                0 <= st,
        ;
        assert((r + 1) * cc == r * cc + cc) by (nonlinear_arith);
        for c in 0..cols
            invariant
                st == stride,
                rr == rows,
                cc == cols,
                r < rows,
                rr * cc <= u32::MAX,
                s == flat_block(blk@, st, rr, cc),
                0 <= r * st,
                r * st + cc <= blk.len(),
                (dom, dom_count as int) == dominant(s, r * cc + c),
                forall|v: int|
                    0 <= v < 256 ==> #[trigger] count[v] == occurrences(s, r * cc + c, v as u8),
        {
            let v: u8 = blk[r * stride + c];
            let ghost k = r * cc + c;
            let i: usize = v as usize;
            proof {
                lemma_flat_index(rr, cc, r as int, c as int);
                assert(s[k] == v);
                lemma_occurrences_bound(s, k, v);
                assert(count[i as int] == occurrences(s, k, i as u8));
            }
            let now: u32 = count[i] + 1;
            let ghost count0 = count@;
            count[i] = now;
            if now > dom_count {
                dom = v;
                dom_count = now;
            }
            assert forall|u: int| 0 <= u < 256 implies #[trigger] count[u] == occurrences(
                s,
                k + 1,
                u as u8,
            ) by {
                assert(count0[u] == occurrences(s, k, u as u8));
            }
        }
    }
    dom
}

proof fn lemma_occurrences_bound(s: Seq<u8>, n: int, v: u8)
    requires
        0 <= n,
    ensures
        0 <= occurrences(s, n, v) <= n,
    decreases n,
{
    if n > 0 {
        lemma_occurrences_bound(s, n - 1, v);
    }
}

/// A sample is dominant, or one of its eight neighbours in the block is.
pub open spec fn near_dominant(
    src: Seq<u8>,
    stride: int,
    rows: int,
    cols: int,
    dom: u8,
    r: int,
    c: int,
) -> bool {
    exists|y: int, x: int|
        is_neighbour(rows, cols, r, c, y, x) && #[trigger] crate::temporal_filter::at(
            src,
            stride,
            y,
            x,
        ) == dom
}

/// `y`, `x` is the cell `r`, `c` or one of its eight neighbours in the block.
pub open spec fn is_neighbour(rows: int, cols: int, r: int, c: int, y: int, x: int) -> bool {
    &&& 0 <= y < rows
    &&& 0 <= x < cols
    &&& r - 1 <= y <= r + 1
    &&& c - 1 <= x <= c + 1
}

/// The dominant value spread to the neighbours of its samples.
pub open spec fn dilated_sample(
    src: Seq<u8>,
    stride: int,
    rows: int,
    cols: int,
    dom: u8,
    r: int,
    c: int,
) -> u8 {
    if near_dominant(src, stride, rows, cols, dom, r, c) {
        dom
    } else {
        crate::temporal_filter::at(src, stride, r, c)
    }
}

/// `k` is the position of a cell of a block.
pub open spec fn is_cell(stride: int, rows: int, cols: int, k: int) -> bool {
    exists|r: int, c: int|
        0 <= r < rows && 0 <= c < cols && k == #[trigger] crate::temporal_filter::cell_index(
            stride,
            r,
            c,
        )
}

fn is_near_dominant(
    src: &[u8],
    stride: usize,
    rows: usize,
    cols: usize,
    dom: u8,
    r: usize,
    c: usize,
) -> (b: bool)
    requires
        rows_fit(src.len() as int, stride as int, rows as int, cols as int),
        r < rows,
        c < cols,
    ensures
        b == near_dominant(
            src@,
            stride as int,
            rows as int,
            cols as int,
            dom,
            r as int,
            c as int,
        ),
{
    let ghost (st, rr, cc) = (stride as int, rows as int, cols as int);
    let top: usize = if r == 0 {
        0
    } else {
        r - 1
    };
    let bottom: usize = if r == rows - 1 {
        r + 1
    } else {
        r + 2
    };
    let left: usize = if c == 0 {
        0
    } else {
        c - 1
    };
    let right: usize = if c == cols - 1 {
        c + 1
    } else {
        c + 2
    };
    for y in top..bottom
        invariant
            st == stride,
            rr == rows,
            cc == cols,
            r < rows,
            c < cols,
            rows_fit(src.len() as int, st, rr, cc),
            top == if r == 0 {
                0
            } else {
                r - 1
            },
            bottom == if r == rows - 1 {
                r + 1
            } else {
                r + 2
            },
            left == if c == 0 {
                0
            } else {
                c - 1
            },
            right == if c == cols - 1 {
                c + 1
            } else {
                c + 2
            },
            forall|v: int, u: int|
                is_neighbour(rr, cc, r as int, c as int, v, u) && v < y
                    ==> #[trigger] crate::temporal_filter::at(src@, st, v, u) != dom,
    {
        assert(row_stop(st, cc, y as int) <= src.len());
        assert(0 <= y * st) by (nonlinear_arith)
            requires
                0 <= y,
                0 <= st,
        ;
        for x in left..right
            invariant
                st == stride,
                rr == rows,
                cc == cols,
                r < rows,
                c < cols,
                top <= y < bottom,
                top == if r == 0 {
                    0
                } else {
                    r - 1
                },
                bottom == if r == rows - 1 {
                    r + 1
                } else {
                    r + 2
                },
                left == if c == 0 {
                    0
                } else {
                    c - 1
                },
                right == if c == cols - 1 {
                    c + 1
                } else {
                    c + 2
                },
                0 <= y * st,
                y * st + cc <= src.len(),
                forall|v: int, u: int|
                    is_neighbour(rr, cc, r as int, c as int, v, u) && (v < y || (v == y && u < x))
                        ==> #[trigger] crate::temporal_filter::at(src@, st, v, u) != dom,
        {
            if src[y * stride + x] == dom {
                assert(is_neighbour(rr, cc, r as int, c as int, y as int, x as int));
                assert(crate::temporal_filter::at(src@, st, y as int, x as int) == dom);
                return true;
            }
        }
    }
    false
}

/// Spread the dominant value of a block to the neighbours of its samples.
pub fn dilate_block(
    src: &[u8],
    src_stride: usize,
    dilated: &mut [u8],
    dilated_stride: usize,
    rows: usize,
    cols: usize,
)
    requires
        rows_fit(src.len() as int, src_stride as int, rows as int, cols as int),
        rows_fit(old(dilated).len() as int, dilated_stride as int, rows as int, cols as int),
        cols <= dilated_stride,
        rows * cols <= u32::MAX,
    ensures
        final(dilated).len() == old(dilated).len(),
        forall|k: int|
            0 <= k < final(dilated).len() && !is_cell(
                dilated_stride as int,
                rows as int,
                cols as int,
                k,
            ) ==> #[trigger] final(dilated)[k] == old(dilated)[k],
        ({
            let dom = dominant(
                flat_block(src@, src_stride as int, rows as int, cols as int),
                rows * cols,
            ).0;
            forall|r: int, c: int|
                0 <= r < rows && 0 <= c < cols ==> #[trigger] crate::temporal_filter::at(
                    final(dilated)@,
                    dilated_stride as int,
                    r,
                    c,
                ) == dilated_sample(
                    src@,
                    src_stride as int,
                    rows as int,
                    cols as int,
                    dom,
                    r,
                    c,
                )
        }),
{
    let dom: u8 = find_dominant_value(src, src_stride, rows, cols);
    let ghost before = dilated@;
    let ghost (st, ds, rr, cc) = (
        src_stride as int,
        dilated_stride as int,
        rows as int,
        cols as int,
    );
    for r in 0..rows
        invariant
            st == src_stride,
            ds == dilated_stride,
            rr == rows,
            cc == cols,
            cc <= ds,
            rows_fit(src.len() as int, st, rr, cc),
            rows_fit(dilated.len() as int, ds, rr, cc),
            dilated.len() == before.len(),
            forall|k: int|
                0 <= k < dilated.len() && !is_cell(ds, rr, cc, k) ==> #[trigger] dilated[k]
                    == before[k],
            forall|v: int, u: int|
                0 <= v < r && 0 <= u < cc ==> #[trigger] crate::temporal_filter::at(
                    dilated@,
                    ds,
                    v,
                    u,
                ) == dilated_sample(src@, st, rr, cc, dom, v, u),
    {
        assert(row_stop(st, cc, r as int) <= src.len());
        assert(row_stop(ds, cc, r as int) <= dilated.len());
        assert(0 <= r * st && 0 <= r * ds) by (nonlinear_arith)
            requires
                0 <= r,
                0 <= st,
                0 <= ds,
        ;
        for c in 0..cols
            invariant
                st == src_stride,
                ds == dilated_stride,
                rr == rows,
                cc == cols,
                r < rows,
                cc <= ds,
                rows_fit(src.len() as int, st, rr, cc),
                rows_fit(dilated.len() as int, ds, rr, cc),
                0 <= r * st,
                0 <= r * ds,
                r * st + cc <= src.len(),
                r * ds + cc <= dilated.len(),
                dilated.len() == before.len(),
                forall|k: int|
                    0 <= k < dilated.len() && !is_cell(ds, rr, cc, k) ==> #[trigger] dilated[k]
                        == before[k],
                forall|v: int, u: int|
                    (0 <= v < r && 0 <= u < cc) || (v == r && 0 <= u < c)
                        ==> #[trigger] crate::temporal_filter::at(dilated@, ds, v, u)
                        == dilated_sample(src@, st, rr, cc, dom, v, u),
        {
            let ghost d0 = dilated@;
            let value: u8 = if is_near_dominant(src, src_stride, rows, cols, dom, r, c) {
                dom
            } else {
                src[r * src_stride + c]
            };
            assert(value == dilated_sample(src@, st, rr, cc, dom, r as int, c as int));
            dilated[r * dilated_stride + c] = value;
            assert(crate::temporal_filter::cell_index(ds, r as int, c as int) == r * ds + c);
            assert forall|v: int, u: int|
                (0 <= v < r && 0 <= u < cc) || (v == r && 0 <= u < c + 1) implies
                #[trigger] crate::temporal_filter::at(dilated@, ds, v, u) == dilated_sample(
                src@,
                st,
                rr,
                cc,
                dom,
                v,
                u,
            ) by {
                crate::temporal_filter::lemma_cells_apart(ds, v, u, r as int, c as int);
                assert(row_stop(ds, cc, v) <= dilated.len());
                if v != r || u != c {
                    assert(crate::temporal_filter::at(d0, ds, v, u) == crate::temporal_filter::at(
                        dilated@,
                        ds,
                        v,
                        u,
                    ));
                }
            }
        }
    }
}

/// Mean of the samples that a variance is taken against.
pub open spec fn flat_level(bd: int) -> int {
    if bd == 8 {
        128
    } else if bd == 10 {
        512
    } else {
        2048
    }
}

/// Variance of a sample of a 16x16 block, scaled to eight bits: from the sums
/// of differences to a flat block and of their squares.
pub open spec fn perpixel_variance(src: Seq<u16>, off: int, stride: int, bd: int) -> int {
    let sum = block_total(|k: int| src[k] - flat_level(bd), off, stride, 16, 16);
    let sse = block_total(
        |k: int| (src[k] - flat_level(bd)) * (src[k] - flat_level(bd)),
        off,
        stride,
        16,
        16,
    );
    let (s, e) = if bd == 8 {
        (sum, sse)
    } else if bd == 10 {
        ((sum + 2) / 4, (sse + 8) / 16)
    } else {
        ((sum + 8) / 16, (sse + 128) / 256)
    };
    (max_int(0, e - (s * s) / 256) + 128) / 256
}

/// Sums of the differences of a 16x16 block to a level, and of their squares.
fn difference_sums(src: &[u16], off: usize, stride: usize, level: i64) -> (r: (i64, i64))
    requires
        rows_fit(src.len() - off, stride as int, 16, 16),
        0 <= level <= 0xffff,
    ensures
        r.0 == block_total(|k: int| src@[k] - level as int, off as int, stride as int, 16, 16),
        r.1 == block_total(
            |k: int| (src@[k] - level as int) * (src@[k] - level as int),
            off as int,
            stride as int,
            16,
            16,
        ),
        -0x100_0000 <= r.0 <= 0x100_0000,
        0 <= r.1 <= 0xff_fe00_0100,
{
    let ghost p = |k: int| src@[k] - level as int;
    let ghost q = |k: int| (src@[k] - level as int) * (src@[k] - level as int);
    let ghost (o, st) = (off as int, stride as int);
    let mut sum: i64 = 0;
    let mut sse: i64 = 0;
    for y in 0usize..16
        invariant
            o == off,
            st == stride,
            rows_fit(src.len() - off, st, 16, 16),
            0 <= level <= 0xffff,
            p == (|k: int| src@[k] - level as int),
            q == (|k: int| (src@[k] - level as int) * (src@[k] - level as int)),
            sum == block_total(p, o, st, 16, y as int),
            sse == block_total(q, o, st, 16, y as int),
            -0x10_0000 * y <= sum <= 0x10_0000 * y,
            0 <= sse <= 0xf_ffe0_0010 * y,
    {
        assert(row_stop(st, 16, y as int) <= src.len() - off);
        assert(0 <= y * st) by (nonlinear_arith)
            requires
                0 <= y,
                0 <= st,
        ;
        let start: usize = off + y * stride;
        let ghost (s0, e0) = (sum, sse);
        for x in 0usize..16
            invariant
                start + 16 <= src.len(),
                0 <= level <= 0xffff,
                p == (|k: int| src@[k] - level as int),
                q == (|k: int| (src@[k] - level as int) * (src@[k] - level as int)),
                sum == s0 + row_total(p, start as int, x as int),
                sse == e0 + row_total(q, start as int, x as int),
                -0x100_0000 <= s0 <= 0x100_0000,
                0 <= e0 <= 0xff_fe00_0100,
                s0 - 0x1_0000 * x <= sum <= s0 + 0x1_0000 * x,
                e0 <= sse <= e0 + 0xfffe_0001 * x,
        {
            let d: i64 = src[start + x] as i64 - level;
            assert(p(start + x) == d && q(start + x) == d * d);
            assert(0 <= d * d <= 0xfffe_0001) by (nonlinear_arith)
                requires
                    -0xffff <= d <= 0xffff,
            ;
            sum = sum + d;
            sse = sse + d * d;
        }
        assert(o + y * st == start);
    }
    (sum, sse)
}

/// See [`perpixel_variance`].
pub fn perpixel_variance_16x16(src: &[u16], off: usize, stride: usize, bd: u8) -> (r: u32)
    requires
        rows_fit(src.len() - off, stride as int, 16, 16),
        bd == 8 || bd == 10 || bd == 12,
    ensures
        r == perpixel_variance(src@, off as int, stride as int, bd as int),
{
    let level: i64 = if bd == 8 {
        128
    } else if bd == 10 {
        512
    } else {
        2048
    };
    let (sum, sse) = difference_sums(src, off, stride, level);
    proof {
        crate::arith::lemma_pow2i_values();
        lemma_total_same(
            |k: int| src@[k] - level as int,
            |k: int| src@[k] - flat_level(bd as int),
            off as int,
            stride as int,
        );
        lemma_total_same(
            |k: int| (src@[k] - level as int) * (src@[k] - level as int),
            |k: int| (src@[k] - flat_level(bd as int)) * (src@[k] - flat_level(bd as int)),
            off as int,
            stride as int,
        );
    }
    let s: i64 = if bd == 8 {
        sum
    } else if bd == 10 {
        shr_i64(sum + 2, 2)
    } else {
        shr_i64(sum + 8, 4)
    };
    let e: i64 = if bd == 8 {
        sse
    } else if bd == 10 {
        shr_i64(sse + 8, 4)
    } else {
        shr_i64(sse + 128, 8)
    };
    assert(0 <= s * s <= 0x1_0000_0000_0000) by (nonlinear_arith)
        requires
            -0x100_0000 <= s <= 0x100_0000,
    ;
    let v: i64 = e - (s * s) / 256;
    let var: i64 = if v < 0 {
        0
    } else {
        v
    };
    ((var + 128) / 256) as u32
}

proof fn lemma_total_same(
    p: spec_fn(int) -> int,
    q: spec_fn(int) -> int,
    off: int,
    stride: int,
)
    requires
        forall|k: int| #[trigger] p(k) == q(k),
    ensures
        block_total(p, off, stride, 16, 16) == block_total(q, off, stride, 16, 16),
{
    assert(p =~= q);
}

/// A plane of luma samples that screen content is looked for in.
pub struct LumaPlane {
    pub src: Seq<u16>,
    pub off: int,
    pub stride: int,
    pub bd: int,
}

/// What a block counts as.
pub enum BlockKind {
    /// One colour, or colours that smoothed edges do not explain.
    Neither,
    /// Few colours; with texture or without.
    Palette { textured: bool },
    /// Many colours.
    Photo,
}

impl LumaPlane {
    /// Start of the block in block row `i` and block column `j`.
    pub open spec fn start(self, i: int, j: int) -> int {
        self.off + 16 * i * self.stride + 16 * j
    }

    /// The block in eight bits, row by row.
    pub open spec fn block8(self, i: int, j: int) -> Seq<u8> {
        Seq::new(
            256,
            |k: int|
                (self.src[self.start(i, j) + (k / 16) * self.stride + k % 16] as int
                    / crate::arith::pow2i(self.bd - 8)) as u8,
        )
    }

    pub open spec fn variance(self, i: int, j: int) -> int {
        perpixel_variance(self.src, self.start(i, j), self.stride, self.bd)
    }

    /// The block with its dominant value spread.
    pub open spec fn dilated8(self, i: int, j: int) -> Seq<u8> {
        let s = self.block8(i, j);
        Seq::new(256, |k: int| dilated_sample(s, 16, 16, 16, dominant(s, 256).0, k / 16, k % 16))
    }

    /// What a block counts as: by its colours, or, where smoothed edges may
    /// have added some, by those that are left once they are taken off.
    pub open spec fn kind(self, i: int, j: int) -> BlockKind {
        let n = distinct(self.block8(i, j), 256);
        let textured = self.variance(i, j) > VAR_THRESH;
        if n > COMPLEX_INITIAL_COLOR_THRESH {
            BlockKind::Photo
        } else if n <= 1 {
            BlockKind::Neither
        } else if n <= SIMPLE_COLOR_THRESH {
            BlockKind::Palette { textured }
        } else if distinct(self.dilated8(i, j), 256) <= COMPLEX_FINAL_COLOR_THRESH && textured {
            BlockKind::Palette { textured: true }
        } else {
            BlockKind::Neither
        }
    }

    /// Numbers of palette, textured palette and photo blocks among the first
    /// `n` of a block row; on a checkerboard only every other block counts.
    pub open spec fn row_counts(self, fast: bool, i: int, n: int) -> (int, int, int)
        decreases n,
    {
        if n <= 0 {
            (0, 0, 0)
        } else {
            let (p, t, f) = self.row_counts(fast, i, n - 1);
            if fast && (i + n - 1) % 2 == 1 {
                (p, t, f)
            } else {
                match self.kind(i, n - 1) {
                    BlockKind::Neither => (p, t, f),
                    BlockKind::Palette { textured } => (
                        p + 1,
                        if textured {
                            t + 1
                        } else {
                            t
                        },
                        f,
                    ),
                    BlockKind::Photo => (p, t, f + 1),
                }
            }
        }
    }

    /// The same over the first `m` block rows of `n` blocks.
    pub open spec fn counts(self, fast: bool, m: int, n: int) -> (int, int, int)
        decreases m,
    {
        if m <= 0 {
            (0, 0, 0)
        } else {
            let (p, t, f) = self.counts(fast, m - 1, n);
            let (q, u, g) = self.row_counts(fast, m - 1, n);
            (p + q, t + u, f + g)
        }
    }

    /// The decision of a frame, from its blocks and its area.
    pub open spec fn decision(self, fast: bool, width: int, height: int) -> ScreenContentDecision {
        let (p, t, f) = self.counts(fast, height / 16, width / 16);
        let m: int = if fast {
            2
        } else {
            1
        };
        let (palette, intrabc, photo) = (m * p, m * t, m * f);
        let area = width * height;
        let tools = (palette - photo / 16) * 2560 > area;
        let copy = tools && (intrabc - photo / 16) * 3072 > area;
        ScreenContentDecision {
            allow_screen_content_tools: tools,
            allow_intrabc: copy,
            is_screen_content_type: copy || (palette * 3840 > area * 4 && intrabc * 7680 > area),
            count_palette: palette as i64,
            count_intrabc: intrabc as i64,
            count_photo: photo as i64,
        }
    }

    /// The plane's rows are in the buffer, and its samples in range.
    pub open spec fn valid(self, width: int, height: int) -> bool {
        &&& self.off >= 0
        &&& self.stride >= 0
        &&& rows_fit(self.src.len() - self.off, self.stride, height, width)
        &&& forall|y: int, x: int|
            0 <= y < height && 0 <= x < width ==> #[trigger] crate::temporal_filter::at(
                self.src.skip(self.off),
                self.stride,
                y,
                x,
            ) as int / crate::arith::pow2i(self.bd - 8) < 256
    }
}

/// The 8-bit samples of a block.
fn load_block(
    src: &[u16],
    off: usize,
    stride: usize,
    bd: u8,
    start: usize,
    Ghost(plane): Ghost<LumaPlane>,
    Ghost(i): Ghost<int>,
    Ghost(j): Ghost<int>,
    Ghost(width): Ghost<int>,
    Ghost(height): Ghost<int>,
) -> (r: [u8; 256])
    requires
        plane == (LumaPlane {
            src: src@,
            off: off as int,
            stride: stride as int,
            bd: bd as int,
        }),
        8 <= bd <= 12,
        plane.valid(width, height),
        0 <= i,
        0 <= j,
        16 * i + 16 <= height,
        16 * j + 16 <= width,
        start == plane.start(i, j),
    ensures
        r@ == plane.block8(i, j),
{
    let mut blk: [u8; 256] = [0; 256];
    let ghost st = stride as int;
    let div: u16 = crate::tpl_model::pow2_of((bd - 8) as u8) as u16;
    proof {
        crate::arith::lemma_pow2i_values();
    }
    for y in 0usize..16
        invariant
            plane == (LumaPlane {
                src: src@,
                off: off as int,
                stride: stride as int,
                bd: bd as int,
            }),
            st == stride,
            plane.valid(width, height),
            0 <= i,
            0 <= j,
            16 * i + 16 <= height,
            16 * j + 16 <= width,
            start == plane.start(i, j),
            div == crate::arith::pow2i(bd as int - 8),
            1 <= div <= 16,
            forall|k: int| 0 <= k < 16 * y ==> #[trigger] blk@[k] == plane.block8(i, j)[k],
    {
        proof {
            let v = 16 * i + y;
            assert(row_stop(st, width, v) <= src.len() - off);
            assert(v * st == 16 * i * st + y * st) by (nonlinear_arith)
                requires
                    v == 16 * i + y,
            ;
            assert(0 <= y * st && 0 <= 16 * i * st) by (nonlinear_arith)
                requires
                    0 <= y,
                    0 <= st,
                    0 <= i,
            ;
        }
        let row: usize = start + y * stride;
        for x in 0usize..16
            invariant
                plane == (LumaPlane {
                    src: src@,
                    off: off as int,
                    stride: stride as int,
                    bd: bd as int,
                }),
                st == stride,
                y < 16,
                plane.valid(width, height),
                0 <= i,
                0 <= j,
                16 * i + 16 <= height,
                16 * j + 16 <= width,
                start == plane.start(i, j),
                row == start + y * st,
                row == off + (16 * i + y) * st + 16 * j,
                row + 16 <= src.len(),
                0 <= (16 * i + y) * st,
                div == crate::arith::pow2i(bd as int - 8),
                1 <= div <= 16,
                forall|k: int| 0 <= k < 16 * y + x ==> #[trigger] blk@[k] == plane.block8(i, j)[k],
        {
            let v: u16 = src[row + x] / div;
            let ghost k = 16 * y + x;
            proof {
                assert(k / 16 == y && k % 16 == x);
                let a = crate::temporal_filter::at(
                    src@.skip(off as int),
                    st,
                    16 * i + y,
                    16 * j + x,
                );
                assert(a == src@[row + x]);
                assert(a as int / crate::arith::pow2i(bd as int - 8) < 256);
            }
            blk[16 * y + x] = v as u8;
            assert(blk@[k] == plane.block8(i, j)[k]);
        }
    }
    assert(blk@ =~= plane.block8(i, j));
    blk
}

/// A flat block of 16 rows is the block itself.
proof fn lemma_flat_of_packed(s: Seq<u8>)
    requires
        s.len() == 256,
    ensures
        flat_block(s, 16, 16, 16) == s,
{
    assert(flat_block(s, 16, 16, 16) =~= s);
}

/// What a block counts as.
fn classify_block(
    src: &[u16],
    off: usize,
    stride: usize,
    bd: u8,
    start: usize,
    Ghost(plane): Ghost<LumaPlane>,
    Ghost(i): Ghost<int>,
    Ghost(j): Ghost<int>,
    Ghost(width): Ghost<int>,
    Ghost(height): Ghost<int>,
) -> (r: BlockKind)
    requires
        plane == (LumaPlane {
            src: src@,
            off: off as int,
            stride: stride as int,
            bd: bd as int,
        }),
        bd == 8 || bd == 10 || bd == 12,
        plane.valid(width, height),
        0 <= i,
        0 <= j,
        16 * i + 16 <= height,
        16 * j + 16 <= width,
        start == plane.start(i, j),
    ensures
        r == plane.kind(i, j),
{
    let blk8: [u8; 256] = load_block(
        src,
        off,
        stride,
        bd,
        start,
        Ghost(plane),
        Ghost(i),
        Ghost(j),
        Ghost(width),
        Ghost(height),
    );
    proof {
        lemma_flat_of_packed(blk8@);
        lemma_distinct_bound(blk8@, 256, 256);
        let st = stride as int;
        assert forall|r: int| 0 <= r < 16 implies #[trigger] row_stop(st, 16, r) <= src.len()
            - start by {
            let v = 16 * i + r;
            assert(row_stop(st, width, v) <= src.len() - off);
            assert(v * st == 16 * i * st + r * st) by (nonlinear_arith)
                requires
                    v == 16 * i + r,
            ;
        }
    }
    let (under, n) = count_colors_with_threshold(&blk8, 16, 16, 16, COMPLEX_INITIAL_COLOR_THRESH);
    if !under {
        return BlockKind::Photo;
    }
    if n <= 1 {
        return BlockKind::Neither;
    }
    let variance: u32 = perpixel_variance_16x16(src, start, stride, bd);
    assert(variance == plane.variance(i, j));
    let textured: bool = variance > VAR_THRESH;
    if n <= SIMPLE_COLOR_THRESH {
        return BlockKind::Palette { textured };
    }
    let mut dilated: [u8; 256] = [0; 256];
    dilate_block(&blk8, 16, &mut dilated, 16, 16, 16);
    proof {
        lemma_flat_of_packed(dilated@);
        let target = plane.dilated8(i, j);
        assert forall|k: int| 0 <= k < 256 implies #[trigger] dilated@[k] == target[k] by {
            assert(crate::temporal_filter::at(dilated@, 16, k / 16, k % 16) == dilated@[k]);
        }
        assert(dilated@ =~= target);
        lemma_distinct_bound(dilated@, 256, 256);
    }
    let (under2, _) = count_colors_with_threshold(&dilated, 16, 16, 16, COMPLEX_FINAL_COLOR_THRESH);
    if under2 && textured {
        BlockKind::Palette { textured: true }
    } else {
        BlockKind::Neither
    }
}

/// Decide on the screen content tools of a frame. `width` and `height` are
/// the luma size in whole multiples of eight samples; only whole 16x16 blocks
/// are looked at, with fast detection only every other one.
#[verifier::spinoff_prover]
pub fn estimate_screen_content_antialiasing_aware(
    src: &[u16],
    off: usize,
    stride: usize,
    width: usize,
    height: usize,
    bd: u8,
    fast_detection: bool,
) -> (r: ScreenContentDecision)
    requires
        bd == 8 || bd == 10 || bd == 12,
        width * height <= 0x100_0000_0000,
        (LumaPlane {
            src: src@,
            off: off as int,
            stride: stride as int,
            bd: bd as int,
        }).valid(16 * (width as int / 16), 16 * (height as int / 16)),
    ensures
        r == (LumaPlane {
            src: src@,
            off: off as int,
            stride: stride as int,
            bd: bd as int,
        }).decision(fast_detection, width as int, height as int),
{
    let ghost plane = LumaPlane {
        src: src@,
        off: off as int,
        stride: stride as int,
        bd: bd as int,
    };
    let rows: usize = height / 16;
    let cols: usize = width / 16;
    let ghost (rr, cc) = (rows as int, cols as int);
    let mut count_palette: i64 = 0;
    let mut count_intrabc: i64 = 0;
    let mut count_photo: i64 = 0;
    proof {
        assert(rr * cc <= width * height) by (nonlinear_arith)
            requires
                0 <= rr <= height,
                0 <= cc <= width,
        ;
        assert(0 * cc == 0) by (nonlinear_arith);
    }
    for i in 0..rows
        invariant
            plane == (LumaPlane {
                src: src@,
                off: off as int,
                stride: stride as int,
                bd: bd as int,
            }),
            bd == 8 || bd == 10 || bd == 12,
            rr == rows,
            cc == cols,
            plane.valid(16 * cc, 16 * rr),
            rr * cc <= 0x100_0000_0000,
            (count_palette as int, count_intrabc as int, count_photo as int) == plane.counts(
                fast_detection,
                i as int,
                cc,
            ),
            0 <= count_intrabc <= count_palette <= i * cc,
            0 <= count_photo <= i * cc,
    {
        let ghost (p0, t0, f0) = (count_palette, count_intrabc, count_photo);
        proof {
            assert((i + 1) * cc == i * cc + cc) by (nonlinear_arith);
            assert((i + 1) * cc <= rr * cc) by (nonlinear_arith)
                requires
                    i + 1 <= rr,
                    cc >= 0,
            ;
        }
        for j in 0..cols
            invariant
                plane == (LumaPlane {
                    src: src@,
                    off: off as int,
                    stride: stride as int,
                    bd: bd as int,
                }),
                bd == 8 || bd == 10 || bd == 12,
                rr == rows,
                cc == cols,
                i < rows,
                plane.valid(16 * cc, 16 * rr),
                i * cc + cc <= 0x100_0000_0000,
                ({
                    let (q, u, g) = plane.row_counts(fast_detection, i as int, j as int);
                    count_palette == p0 + q && count_intrabc == t0 + u && count_photo == f0 + g
                }),
                0 <= count_intrabc <= count_palette <= i * cc + j,
                0 <= count_photo <= i * cc + j,
        {
            if !(fast_detection && (i % 2 + j % 2) % 2 == 1) {
                proof {
                    let st = stride as int;
                    let v = 16 * i;
                    assert(row_stop(st, 16 * cc, v) <= src.len() - off);
                    assert(v * st == 16 * (i * st)) by (nonlinear_arith)
                        requires
                            v == 16 * i,
                    ;
                    assert(16 * i * st == v * st);
                    assert(0 <= i * st) by (nonlinear_arith)
                        requires
                            0 <= i,
                            0 <= st,
                    ;
                }
                let start: usize = off + (i * stride) * 16 + 16 * j;
                let kind = classify_block(
                    src,
                    off,
                    stride,
                    bd,
                    start,
                    Ghost(plane),
                    Ghost(i as int),
                    Ghost(j as int),
                    Ghost(16 * cc),
                    Ghost(16 * rr),
                );
                match kind {
                    BlockKind::Neither => {},
                    BlockKind::Palette { textured } => {
                        count_palette = count_palette + 1;
                        if textured {
                            count_intrabc = count_intrabc + 1;
                        }
                    },
                    BlockKind::Photo => {
                        count_photo = count_photo + 1;
                    },
                }
            }
        }
    }
    if fast_detection {
        count_palette = count_palette * 2;
        count_intrabc = count_intrabc * 2;
        count_photo = count_photo * 2;
    }
    let area: i64 = (width as u128 * height as u128) as i64;
    let allow_screen_content_tools: bool = (count_palette - count_photo / 16) * 256 * 10 > area;
    let allow_intrabc: bool = allow_screen_content_tools && (count_intrabc - count_photo / 16) * 256
        * 12 > area;
    let is_screen_content_type: bool = allow_intrabc || (count_palette * 256 * 15 > area * 4
        && count_intrabc * 256 * 30 > area);
    ScreenContentDecision {
        allow_screen_content_tools,
        allow_intrabc,
        is_screen_content_type,
        count_palette,
        count_intrabc,
        count_photo,
    }
}

/// Copying within a frame is allowed only with the screen content tools, and
/// makes the frame screen content.
pub proof fn law_intrabc_implies_tools(plane: LumaPlane, fast: bool, width: int, height: int)
    ensures
        ({
            let d = plane.decision(fast, width, height);
            &&& d.allow_intrabc ==> d.allow_screen_content_tools
            &&& d.allow_intrabc ==> d.is_screen_content_type
        }),
{
}

/// Every textured block is a palette block, and no block counts as palette and
/// photo at once.
pub proof fn law_counts_are_bounded(plane: LumaPlane, fast: bool, m: int, n: int)
    requires
        0 <= m,
        0 <= n,
    ensures
        ({
            let (p, t, f) = plane.counts(fast, m, n);
            0 <= t <= p && 0 <= f && p + f <= m * n
        }),
    decreases m,
{
    if m > 0 {
        law_counts_are_bounded(plane, fast, m - 1, n);
        lemma_row_counts(plane, fast, m - 1, n);
        assert(m * n == (m - 1) * n + n) by (nonlinear_arith);
    } else {
        assert(m * n == 0) by (nonlinear_arith)
            requires
                m == 0,
        ;
    }
}

proof fn lemma_row_counts(plane: LumaPlane, fast: bool, i: int, n: int)
    requires
        0 <= n,
    ensures
        ({
            let (p, t, f) = plane.row_counts(fast, i, n);
            0 <= t <= p && 0 <= f && p + f <= n
        }),
    decreases n,
{
    if n > 0 {
        lemma_row_counts(plane, fast, i, n - 1);
    }
}

/// The dominant value spreads by one sample each way and no farther: a sample
/// with a dominant one at most a row and a column away becomes dominant, every
/// other one stays.
pub proof fn law_dominant_value_spreads_by_one(
    src: Seq<u8>,
    stride: int,
    rows: int,
    cols: int,
    dom: u8,
    r: int,
    c: int,
)
    requires
        0 <= r < rows,
        0 <= c < cols,
    ensures
        ({
            let v = dilated_sample(src, stride, rows, cols, dom, r, c);
            let at = |y: int, x: int| src[y * stride + x];
            let near = |y: int, x: int| 0 <= y < rows && 0 <= x < cols && at(y, x) == dom;
            let met = near(r - 1, c - 1) || near(r - 1, c) || near(r - 1, c + 1) || near(r, c - 1)
                || near(r, c) || near(r, c + 1) || near(r + 1, c - 1) || near(r + 1, c) || near(
                r + 1,
                c + 1,
            );
            v == if met {
                dom
            } else {
                at(r, c)
            }
        }),
{
    let at = |y: int, x: int| src[y * stride + x];
    let near = |y: int, x: int| 0 <= y < rows && 0 <= x < cols && at(y, x) == dom;
    if near_dominant(src, stride, rows, cols, dom, r, c) {
        let (y, x) = choose|y: int, x: int|
            is_neighbour(rows, cols, r, c, y, x) && #[trigger] crate::temporal_filter::at(
                src,
                stride,
                y,
                x,
            ) == dom;
        assert(near(y, x));
        assert(y == r - 1 || y == r || y == r + 1);
        assert(x == c - 1 || x == c || x == c + 1);
    } else {
        assert forall|y: int, x: int| is_neighbour(rows, cols, r, c, y, x) implies !#[trigger] near(
            y,
            x,
        ) by {
            assert(crate::temporal_filter::at(src, stride, y, x) != dom);
        }
    }
}

proof fn lemma_two_values(s: Seq<u8>, n: int, a: u8, b: u8, m: int)
    requires
        0 < n <= s.len(),
        a <= b,
        appears(s, n, a as int),
        appears(s, n, b as int),
        forall|k: int| 0 <= k < n ==> #[trigger] s[k] == a || s[k] == b,
        0 <= m,
    ensures
        distinct_below(s, n, m) == (if a < m {
            1int
        } else {
            0
        }) + (if a != b && b < m {
            1int
        } else {
            0
        }),
    decreases m,
{
    if m > 0 {
        lemma_two_values(s, n, a, b, m - 1);
        let v = m - 1;
        if v != a && v != b {
            assert(!appears(s, n, v)) by {
                if appears(s, n, v) {
                    let k = choose|k: int| 0 <= k < n && #[trigger] s[k] == v;
                    assert(s[k] == a || s[k] == b);
                }
            }
        }
    }
}

impl LumaPlane {
    /// A flat block counts as nothing, and a block of two colours as a palette
    /// block, which is textured where its variance is above 5.
    pub proof fn law_two_colors_make_a_palette(self, i: int, j: int, a: u8, b: u8, k: int, l: int)
        requires
            0 <= k < 256,
            0 <= l < 256,
            a <= b,
            self.block8(i, j)[k] == a,
            self.block8(i, j)[l] == b,
            forall|n: int|
                0 <= n < 256 ==> #[trigger] self.block8(i, j)[n] == a || self.block8(i, j)[n] == b,
        ensures
            a == b ==> self.kind(i, j) == BlockKind::Neither,
            a != b ==> self.kind(i, j) == (BlockKind::Palette {
                textured: self.variance(i, j) > 5,
            }),
    {
        let s = self.block8(i, j);
        assert(s[k] == a && s[l] == b);
        assert(appears(s, 256, a as int));
        assert(appears(s, 256, b as int));
        lemma_two_values(s, 256, a, b, 256);
    }

    /// What the decision of a frame goes by: palette blocks, less a sixteenth
    /// of the photo blocks, have to cover more than a tenth of the frame, and
    /// textured ones more than a twelfth for copies within it.
    pub proof fn law_decision_weighs_blocks_by_area(self, fast: bool, width: int, height: int)
        requires
            0 <= width,
            0 <= height,
            width * height <= 0x100_0000_0000,
        ensures
            ({
                let d = self.decision(fast, width, height);
                let area = width * height;
                let palette = d.count_palette - d.count_photo as int / 16;
                let copies = d.count_intrabc - d.count_photo as int / 16;
                &&& d.allow_screen_content_tools == (10 * (256 * palette) > area)
                &&& d.allow_intrabc == (d.allow_screen_content_tools && 12 * (256 * copies) > area)
                &&& d.is_screen_content_type == (d.allow_intrabc || (15 * (256 * d.count_palette) > 4
                    * area && 30 * (256 * d.count_intrabc) > area))
            }),
    {
        let (m, n) = (height / 16, width / 16);
        law_counts_are_bounded(self, fast, m, n);
        assert(0 <= m * n <= width * height) by (nonlinear_arith)
            requires
                0 <= m <= height,
                0 <= n <= width,
        ;
    }
}

/// Variance is measured alike at every depth: a block whose samples are those
/// of an eight-bit block times 4 or 16 has, at 10 or 12 bits, the same
/// variance.
pub proof fn law_depths_have_the_same_variance(
    low: Seq<u16>,
    high: Seq<u16>,
    off: int,
    stride: int,
    bd: int,
)
    requires
        bd == 10 || bd == 12,
        forall|r: int, c: int|
            #![trigger high[off + r * stride + c]]
            0 <= r < 16 && 0 <= c < 16 ==> high[off + r * stride + c] == low[off + r * stride + c]
                * (if bd == 10 {
                4int
            } else {
                16
            }),
    ensures
        perpixel_variance(high, off, stride, bd) == perpixel_variance(low, off, stride, 8),
{
    let p: int = if bd == 10 {
        4
    } else {
        16
    };
    let d8 = |k: int| low[k] - flat_level(8);
    let dh = |k: int| high[k] - flat_level(bd);
    let e8 = |k: int| (low[k] - flat_level(8)) * (low[k] - flat_level(8));
    let eh = |k: int| (high[k] - flat_level(bd)) * (high[k] - flat_level(bd));
    assert forall|r: int, c: int| 0 <= r < 16 && 0 <= c < 16 implies #[trigger] dh(
        off + r * stride + c,
    ) == p * d8(off + r * stride + c) by {
        let k = off + r * stride + c;
        assert(high[k] == low[k] * p);
    }
    assert forall|r: int, c: int| 0 <= r < 16 && 0 <= c < 16 implies #[trigger] eh(
        off + r * stride + c,
    ) == (p * p) * e8(off + r * stride + c) by {
        let k = off + r * stride + c;
        assert(high[k] == low[k] * p);
        let v = low[k] - 128;
        assert((p * v) * (p * v) == (p * p) * (v * v)) by (nonlinear_arith);
    }
    lemma_scaled_total(d8, dh, off, stride, 16, 16, p);
    lemma_scaled_total(e8, eh, off, stride, 16, 16, p * p);
    let s = block_total(d8, off, stride, 16, 16);
    let e = block_total(e8, off, stride, 16, 16);
    assert(block_total(dh, off, stride, 16, 16) == p * s);
    assert(block_total(eh, off, stride, 16, 16) == (p * p) * e);
    if bd == 10 {
        assert((4 * s + 2) / 4 == s && (16 * e + 8) / 16 == e);
    } else {
        assert((16 * s + 8) / 16 == s && (256 * e + 128) / 256 == e);
    }
}

proof fn lemma_scaled_total(
    f: spec_fn(int) -> int,
    g: spec_fn(int) -> int,
    off: int,
    stride: int,
    w: int,
    h: int,
    p: int,
)
    requires
        forall|r: int, c: int|
            0 <= r < h && 0 <= c < w ==> #[trigger] g(off + r * stride + c) == p * f(
                off + r * stride + c,
            ),
    ensures
        block_total(g, off, stride, w, h) == p * block_total(f, off, stride, w, h),
    decreases h,
{
    if h > 0 {
        lemma_scaled_total(f, g, off, stride, w, h - 1, p);
        let at = off + (h - 1) * stride;
        assert forall|c: int| 0 <= c < w implies #[trigger] g(at + c) == p * f(at + c) by {
            assert(g(off + (h - 1) * stride + c) == p * f(off + (h - 1) * stride + c));
        }
        lemma_scaled_row(f, g, at, w, p);
        let (a, b) = (
            block_total(f, off, stride, w, h - 1),
            crate::samples::row_total(f, at, w),
        );
        assert(p * a + p * b == p * (a + b)) by (nonlinear_arith);
    } else {
        assert(p * 0 == 0) by (nonlinear_arith);
    }
}

proof fn lemma_scaled_row(
    f: spec_fn(int) -> int,
    g: spec_fn(int) -> int,
    off: int,
    n: int,
    p: int,
)
    requires
        forall|c: int| 0 <= c < n ==> #[trigger] g(off + c) == p * f(off + c),
    ensures
        crate::samples::row_total(g, off, n) == p * crate::samples::row_total(f, off, n),
    decreases n,
{
    if n > 0 {
        lemma_scaled_row(f, g, off, n - 1, p);
        assert(g(off + (n - 1)) == p * f(off + (n - 1)));
        let (a, b) = (crate::samples::row_total(f, off, n - 1), f(off + n - 1));
        assert(p * a + p * b == p * (a + b)) by (nonlinear_arith);
    } else {
        assert(p * 0 == 0) by (nonlinear_arith);
    }
}

/// A block read row by row holds each of its samples at the place of its row
/// and column.
pub proof fn law_flat_block_holds_its_samples(
    blk: Seq<u8>,
    stride: int,
    rows: int,
    cols: int,
    r: int,
    c: int,
)
    requires
        0 <= r < rows,
        0 <= c < cols,
    ensures
        flat_block(blk, stride, rows, cols).len() == rows * cols,
        flat_block(blk, stride, rows, cols)[r * cols + c] == blk[r * stride + c],
{
    let k = r * cols + c;
    assert(k / cols == r && k % cols == c && 0 <= k < rows * cols) by (nonlinear_arith)
        requires
            k == r * cols + c,
            0 <= r < rows,
            0 <= c < cols,
    ;
}

/// The values of a block are counted once each: a value that the samples hold
/// already does not count again, and a new one counts.
pub proof fn law_value_counts_once(s: Seq<u8>, n: int)
    requires
        0 <= n < s.len(),
    ensures
        distinct(s, n + 1) == distinct(s, n) + (if appears(s, n, s[n] as int) {
            0int
        } else {
            1
        }),
{
    lemma_distinct_step(s, n, 256);
}

/// What a block of a kind adds to the counts.
pub open spec fn kind_counts(kind: BlockKind) -> (int, int, int) {
    match kind {
        BlockKind::Neither => (0, 0, 0),
        BlockKind::Palette { textured } => (1, if textured { 1 } else { 0 }, 0),
        BlockKind::Photo => (0, 0, 1),
    }
}

impl LumaPlane {
    /// Each block counts once, wherever it lies: a frame in which one block
    /// alone counts as something has the counts of that block. The fast count
    /// looks at the blocks of one colour of a checkerboard, which has the first.
    pub proof fn law_lone_block_is_counted(
        self,
        fast: bool,
        m: int,
        n: int,
        r: int,
        c: int,
    )
        requires
            0 <= r < m,
            0 <= c < n,
            forall|i: int, j: int|
                0 <= i < m && 0 <= j < n && !(i == r && j == c) ==> #[trigger] self.kind(i, j)
                    == BlockKind::Neither,
        ensures
            self.counts(fast, m, n) == if fast && (r + c) % 2 == 1 {
                (0int, 0int, 0int)
            } else {
                kind_counts(self.kind(r, c))
            },
    {
        self.lemma_lone_counts(fast, m, m, n, r, c);
    }

    proof fn lemma_lone_counts(self, fast: bool, all: int, m: int, n: int, r: int, c: int)
        requires
            0 <= m <= all,
            0 <= r < all,
            0 <= c < n,
            forall|i: int, j: int|
                0 <= i < all && 0 <= j < n && !(i == r && j == c) ==> #[trigger] self.kind(i, j)
                    == BlockKind::Neither,
        ensures
            self.counts(fast, m, n) == if m <= r || (fast && (r + c) % 2 == 1) {
                (0int, 0int, 0int)
            } else {
                kind_counts(self.kind(r, c))
            },
        decreases m,
    {
        if m > 0 {
            self.lemma_lone_counts(fast, all, m - 1, n, r, c);
            self.lemma_lone_row_counts(fast, all, m - 1, n, n, r, c);
        }
    }

    proof fn lemma_lone_row_counts(
        self,
        fast: bool,
        all: int,
        i: int,
        wide: int,
        n: int,
        r: int,
        c: int,
    )
        requires
            0 <= i < all,
            0 <= n <= wide,
            0 <= r < all,
            0 <= c < wide,
            forall|i: int, j: int|
                0 <= i < all && 0 <= j < wide && !(i == r && j == c) ==> #[trigger] self.kind(i, j)
                    == BlockKind::Neither,
        ensures
            self.row_counts(fast, i, n) == if i != r || n <= c || (fast && (r + c) % 2 == 1) {
                (0int, 0int, 0int)
            } else {
                kind_counts(self.kind(r, c))
            },
        decreases n,
    {
        if n > 0 {
            self.lemma_lone_row_counts(fast, all, i, wide, n - 1, r, c);
            if !(i == r && n - 1 == c) {
                assert(self.kind(i, n - 1) == BlockKind::Neither);
            }
        }
    }

    /// A block of more than 40 colours is a photo and one of at most four, but
    /// more than one, a palette block. Between them it is a palette block where
    /// it is textured and at most six colours are left once its dominant one is
    /// spread, and nothing otherwise.
    pub proof fn law_colors_decide_the_kind(self, i: int, j: int)
        ensures
            ({
                let n = distinct(self.block8(i, j), 256);
                let left = distinct(self.dilated8(i, j), 256);
                let textured = self.variance(i, j) > 5;
                &&& (self.kind(i, j) == BlockKind::Photo <==> n > 40)
                &&& (2 <= n <= 4 ==> self.kind(i, j) == (BlockKind::Palette { textured }))
                &&& (4 < n <= 40 ==> self.kind(i, j) == (if textured && left <= 6 {
                    BlockKind::Palette { textured: true }
                } else {
                    BlockKind::Neither
                }))
                &&& (n <= 1 ==> self.kind(i, j) == BlockKind::Neither)
            }),
    {
    }
}

} // verus!
