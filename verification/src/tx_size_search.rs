//! The transform-size search of an intra luma block: the walk over the
//! transform blocks of one uniform size, the cost of that size, and the sweep
//! over the transform depths.
//!
//! Prediction, reconstruction and the outcomes of the type searches come from
//! the caller, block by block; the walk says which block is next, with which
//! neighbour contexts and which budget, and adds up what it is given.

use vstd::prelude::*;

use crate::arith::min_int;
use crate::block::{MI_SIZE_HIGH_B, MI_SIZE_WIDE_B};
use crate::rd::{rd_value, rdcost, MAX_DIST};
use crate::tx_search::{TXSIZE_SQR_UP_MAP, TXS_H, TXS_W};

verus! {

/// Rate, distortion, residual energy and skip flag of a set of transform
/// blocks. A rate of `i32::MAX` marks the figures as invalid.
#[derive(Clone, Copy, Debug, PartialEq, Eq, Structural)]
pub struct RdStats {
    pub rate: i32,
    pub dist: i64,
    pub sse: i64,
    pub skip_txfm: bool,
}

impl RdStats {
    /// The figures of no block at all.
    pub open spec fn none() -> RdStats {
        RdStats { rate: 0, dist: 0, sse: 0, skip_txfm: true }
    }

    /// The figures of two sets together: the rate is capped at `i32::MAX`,
    /// and an invalid rate makes the result invalid.
    pub open spec fn merged(self, o: RdStats) -> RdStats {
        if self.rate == i32::MAX || o.rate == i32::MAX {
            RdStats { rate: i32::MAX, ..self }
        } else {
            RdStats {
                rate: min_int(self.rate + o.rate, i32::MAX as int) as i32,
                dist: (self.dist + o.dist) as i64,
                sse: (self.sse + o.sse) as i64,
                skip_txfm: self.skip_txfm && o.skip_txfm,
            }
        }
    }

    /// The sums of the two sets, formed where both rates are valid, are
    /// representable.
    pub open spec fn fits(self, o: RdStats) -> bool {
        self.rate != i32::MAX && o.rate != i32::MAX ==> {
            &&& i32::MIN <= self.rate + o.rate
            &&& i64::MIN <= self.dist + o.dist <= i64::MAX
            &&& i64::MIN <= self.sse + o.sse <= i64::MAX
        }
    }

    /// The figures of no block.
    pub fn zero() -> (r: Self)
        ensures
            r == RdStats::none(),
    {
        RdStats { rate: 0, dist: 0, sse: 0, skip_txfm: true }
    }

    /// Add the figures of another set.
    pub fn merge(&mut self, o: &RdStats)
        requires
            old(self).fits(*o),
        ensures
            *final(self) == old(self).merged(*o),
    {
        if self.rate == i32::MAX || o.rate == i32::MAX {
            self.rate = i32::MAX;
            return;
        }
        let sum: i64 = self.rate as i64 + o.rate as i64;
        self.rate = if sum < i32::MAX as i64 { sum as i32 } else { i32::MAX };
        self.dist = self.dist + o.dist;
        self.sse = self.sse + o.sse;
        self.skip_txfm = self.skip_txfm && o.skip_txfm;
    }
}

/// The winner of one transform block in a walk.
#[derive(Clone, Copy, Debug, PartialEq, Eq, Structural)]
pub struct TxbWinner {
    pub tx_type: usize,
    pub eob: u16,
    pub txb_ctx: u8,
}

/// What a type search found for one transform block of a walk.
#[derive(Clone, Copy, Debug, PartialEq, Eq, Structural)]
pub struct TxbFigures {
    pub winner: TxbWinner,
    pub rate: i32,
    pub dist: i64,
    pub sse: i64,
}

impl TxbFigures {
    /// An intra block is always signalled as having coefficients.
    pub open spec fn stats(self) -> RdStats {
        RdStats { rate: self.rate, dist: self.dist, sse: self.sse, skip_txfm: false }
    }
}

/// Ceiling of `n / d`.
pub open spec fn steps(n: int, d: int) -> int {
    (n + d - 1) / d
}

/// Number of transform blocks of a size in a block, counted along one row and
/// in all.
pub open spec fn txbs_per_row(bsize: int, tx_size: int) -> int {
    steps(MI_SIZE_WIDE_B[bsize] as int, TXS_W[tx_size] as int / 4)
}

pub open spec fn txb_count(bsize: int, tx_size: int) -> int {
    txbs_per_row(bsize, tx_size) * steps(
        MI_SIZE_HIGH_B[bsize] as int,
        TXS_H[tx_size] as int / 4,
    )
}

/// The figures of the first `k` blocks together.
pub open spec fn walk_stats(figs: Seq<TxbFigures>, k: int) -> RdStats
    decreases k,
{
    if k <= 0 {
        RdStats::none()
    } else {
        walk_stats(figs, k - 1).merged(figs[k - 1].stats())
    }
}

/// The running cost after the first `k` blocks.
pub open spec fn walk_rd(rdmult: int, start: int, figs: Seq<TxbFigures>, k: int) -> int
    decreases k,
{
    if k <= 0 {
        start
    } else {
        walk_rd(rdmult, start, figs, k - 1) + rd_value(
            rdmult,
            figs[k - 1].rate as int,
            figs[k - 1].dist as int,
        )
    }
}

/// The sums over the first `k` blocks are representable.
pub open spec fn walk_fits(rdmult: int, start: int, figs: Seq<TxbFigures>, k: int) -> bool
    decreases k,
{
    if k <= 0 {
        true
    } else {
        &&& walk_fits(rdmult, start, figs, k - 1)
        &&& walk_stats(figs, k - 1).fits(figs[k - 1].stats())
        &&& -MAX_DIST <= figs[k - 1].dist <= MAX_DIST
        &&& i64::MIN <= walk_rd(rdmult, start, figs, k) <= i64::MAX
    }
}

/// The running cost stays at or under the reference through `k` blocks.
pub open spec fn within_budget(
    rdmult: int,
    start: int,
    figs: Seq<TxbFigures>,
    ref_best_rd: int,
    k: int,
) -> bool {
    forall|j: int| 0 <= j <= k ==> #[trigger] walk_rd(rdmult, start, figs, j) <= ref_best_rd
}

/// Stamp `value` over `n` contexts from `from` on; positions past the end are
/// left out.
pub fn stamp_context(ctx: &mut Vec<i8>, from: usize, n: usize, value: i8)
    requires
        from + n <= usize::MAX,
    ensures
        final(ctx).len() == old(ctx).len(),
        forall|i: int|
            0 <= i < final(ctx).len() ==> #[trigger] final(ctx)[i] == if from <= i < from + n {
                value
            } else {
                old(ctx)[i]
            },
{
    let end: usize = if from + n < ctx.len() { from + n } else { ctx.len() };
    let mut i: usize = from;
    while i < end
        invariant
            from <= i,
            i <= end || from > end,
            end <= from + n,
            end <= ctx.len(),
            from + n <= usize::MAX,
            ctx.len() == old(ctx).len(),
            forall|j: int|
                0 <= j < ctx.len() ==> #[trigger] ctx[j] == if from <= j < i {
                    value
                } else {
                    old(ctx)[j]
                },
        decreases end - i,
    {
        ctx.set(i, value);
        i = i + 1;
    }
}

/// A block still to be searched: its position in units of four samples and
/// the cost the search may still spend.
#[derive(Clone, Copy, Debug, PartialEq, Eq, Structural)]
pub struct TxbTask {
    pub blk_row: usize,
    pub blk_col: usize,
    pub budget: i64,
}

/// A walk over the transform blocks of a block, in raster order.
pub struct PlaneWalk {
    rdmult: i32,
    ref_best_rd: i64,
    unit_w: usize,
    unit_h: usize,
    per_row: usize,
    total: usize,
    done: usize,
    current_rd: i64,
    over: bool,
    stats: RdStats,
    winners: Vec<TxbWinner>,
    above: Vec<i8>,
    left: Vec<i8>,
    start_rd: Ghost<int>,
    figs: Ghost<Seq<TxbFigures>>,
}

impl PlaneWalk {
    pub closed spec fn rdmult(self) -> int {
        self.rdmult as int
    }

    /// The cost the walk started from.
    pub closed spec fn start_rd(self) -> int {
        self.start_rd@
    }

    pub closed spec fn ref_best_rd(self) -> int {
        self.ref_best_rd as int
    }

    /// The figures committed so far.
    pub closed spec fn figs(self) -> Seq<TxbFigures> {
        self.figs@
    }

    /// Blocks in the walk.
    pub closed spec fn total(self) -> int {
        self.total as int
    }

    pub closed spec fn per_row(self) -> int {
        self.per_row as int
    }

    /// Width and height of a transform block in units of four samples.
    pub closed spec fn unit(self) -> (int, int) {
        (self.unit_w as int, self.unit_h as int)
    }

    /// Entropy contexts along the upper and the left edge.
    pub closed spec fn contexts(self) -> (Seq<i8>, Seq<i8>) {
        (self.above@, self.left@)
    }

    /// The running cost has passed the reference.
    pub closed spec fn over(self) -> bool {
        self.over
    }

    pub closed spec fn valid(self) -> bool {
        &&& 1 <= self.unit_w <= 16
        &&& 1 <= self.unit_h <= 16
        &&& 1 <= self.per_row <= 32
        &&& self.total <= 1024
        &&& self.done <= self.total
        &&& self.done == self.figs@.len()
        &&& walk_fits(self.rdmult as int, self.start_rd@, self.figs@, self.done as int)
        &&& self.stats == walk_stats(self.figs@, self.done as int)
        &&& self.current_rd == walk_rd(
            self.rdmult as int,
            self.start_rd@,
            self.figs@,
            self.done as int,
        )
        &&& self.over == !within_budget(
            self.rdmult as int,
            self.start_rd@,
            self.figs@,
            self.ref_best_rd as int,
            self.done as int,
        )
        &&& self.winners@ == self.figs@.map_values(|f: TxbFigures| f.winner)
    }

    /// Start a walk at the cost `current_rd`. The contexts are the block's
    /// neighbours, one per unit of its width and of its height.
    pub fn start(
        bsize: usize,
        tx_size: usize,
        rdmult: i32,
        ref_best_rd: i64,
        current_rd: i64,
        above_ctx: &[i8],
        left_ctx: &[i8],
    ) -> (r: Self)
        requires
            bsize < 22,
            tx_size < 19,
            above_ctx.len() >= MI_SIZE_WIDE_B[bsize as int],
            left_ctx.len() >= MI_SIZE_HIGH_B[bsize as int],
        ensures
            r.valid(),
            r.rdmult() == rdmult,
            r.start_rd() == current_rd,
            r.ref_best_rd() == ref_best_rd,
            r.figs() == Seq::<TxbFigures>::empty(),
            r.total() == txb_count(bsize as int, tx_size as int),
            r.per_row() == txbs_per_row(bsize as int, tx_size as int),
            r.unit() == (TXS_W[tx_size as int] as int / 4, TXS_H[tx_size as int] as int / 4),
            r.contexts() == (
                above_ctx@.subrange(0, MI_SIZE_WIDE_B[bsize as int] as int),
                left_ctx@.subrange(0, MI_SIZE_HIGH_B[bsize as int] as int),
            ),
            r.over() == (current_rd > ref_best_rd),
    {
        let unit_w: usize = TXS_W[tx_size] / 4;
        let unit_h: usize = TXS_H[tx_size] / 4;
        let wide: usize = MI_SIZE_WIDE_B[bsize];
        let high: usize = MI_SIZE_HIGH_B[bsize];
        proof {
            lemma_steps(wide as int, unit_w as int);
            lemma_steps(high as int, unit_h as int);
        }
        let per_row: usize = (wide + unit_w - 1) / unit_w;
        let rows: usize = (high + unit_h - 1) / unit_h;
        assert(per_row * rows <= 1024) by (nonlinear_arith)
            requires
                per_row <= 32,
                rows <= 32,
        ;
        assert(0 <= per_row * rows) by (nonlinear_arith);
        let r = PlaneWalk {
            rdmult,
            ref_best_rd,
            unit_w,
            unit_h,
            per_row,
            total: per_row * rows,
            done: 0,
            current_rd,
            over: current_rd > ref_best_rd,
            stats: RdStats::zero(),
            winners: Vec::new(),
            above: copy_contexts(above_ctx, wide),
            left: copy_contexts(left_ctx, high),
            start_rd: Ghost(current_rd as int),
            figs: Ghost(Seq::empty()),
        };
        proof {
            assert(walk_rd(rdmult as int, r.start_rd@, r.figs@, 0) == current_rd);
            assert(r.winners@ =~= r.figs@.map_values(|f: TxbFigures| f.winner));
        }
        r
    }

    /// The next block to search, or `None` when the walk is over or its cost
    /// has passed the reference.
    pub fn next(&self) -> (r: Option<TxbTask>)
        requires
            self.valid(),
        ensures
            r is None <==> self.over() || self.figs().len() == self.total(),
            r matches Some(task) ==> {
                let k = self.figs().len() as int;
                &&& task.blk_row == (k / self.per_row()) * self.unit().1
                &&& task.blk_col == (k % self.per_row()) * self.unit().0
                &&& task.budget == (self.ref_best_rd() as i64).wrapping_sub(
                    walk_rd(self.rdmult(), self.start_rd(), self.figs(), k) as i64,
                )
            },
    {
        if self.over || self.done == self.total {
            return None;
        }
        proof {
            let a = self.done as int / self.per_row as int;
            let b = self.done as int % self.per_row as int;
            assert(0 <= a <= 1024 && 0 <= b < 32) by (nonlinear_arith)
                requires
                    a == self.done as int / self.per_row as int,
                    b == self.done as int % self.per_row as int,
                    0 <= self.done <= 1024,
                    1 <= self.per_row <= 32,
            ;
            assert(0 <= a * self.unit_h <= 16384) by (nonlinear_arith)
                requires
                    0 <= a <= 1024,
                    1 <= self.unit_h <= 16,
            ;
            assert(0 <= b * self.unit_w <= 512) by (nonlinear_arith)
                requires
                    0 <= b < 32,
                    1 <= self.unit_w <= 16,
            ;
        }
        Some(
            TxbTask {
                blk_row: self.done / self.per_row * self.unit_h,
                blk_col: self.done % self.per_row * self.unit_w,
                budget: self.ref_best_rd.wrapping_sub(self.current_rd),
            },
        )
    }

    /// The neighbour contexts of the next block and of those after it.
    pub fn above_context(&self) -> (r: &Vec<i8>)
        ensures
            r@ == self.contexts().0,
    {
        &self.above
    }

    pub fn left_context(&self) -> (r: &Vec<i8>)
        ensures
            r@ == self.contexts().1,
    {
        &self.left
    }

    /// Commit what the search of the next block found: its figures are added,
    /// and its context is stamped along its upper and its left edge.
    pub fn commit(&mut self, fig: TxbFigures)
        requires
            old(self).valid(),
            !old(self).over(),
            old(self).figs().len() < old(self).total(),
            walk_fits(
                old(self).rdmult(),
                old(self).start_rd(),
                old(self).figs().push(fig),
                old(self).figs().len() as int + 1,
            ),
        ensures
            final(self).valid(),
            final(self).figs() == old(self).figs().push(fig),
            final(self).rdmult() == old(self).rdmult(),
            final(self).start_rd() == old(self).start_rd(),
            final(self).ref_best_rd() == old(self).ref_best_rd(),
            final(self).total() == old(self).total(),
            final(self).per_row() == old(self).per_row(),
            final(self).unit() == old(self).unit(),
            final(self).over() == !within_budget(
                old(self).rdmult(),
                old(self).start_rd(),
                final(self).figs(),
                old(self).ref_best_rd(),
                final(self).figs().len() as int,
            ),
            ({
                let k = old(self).figs().len() as int;
                let row = (k / old(self).per_row()) * old(self).unit().1;
                let col = (k % old(self).per_row()) * old(self).unit().0;
                let value = fig.winner.txb_ctx as i8;
                let (above, left) = final(self).contexts();
                &&& above.len() == old(self).contexts().0.len()
                &&& left.len() == old(self).contexts().1.len()
                &&& forall|i: int|
                    0 <= i < above.len() ==> #[trigger] above[i] == if col <= i < col + old(
                        self,
                    ).unit().0 {
                        value
                    } else {
                        old(self).contexts().0[i]
                    }
                &&& forall|i: int|
                    0 <= i < left.len() ==> #[trigger] left[i] == if row <= i < row + old(
                        self,
                    ).unit().1 {
                        value
                    } else {
                        old(self).contexts().1[i]
                    }
            }),
    {
        let task = self.next();
        match task {
            None => {},
            Some(t) => {
                let ghost before = self.figs@;
                let ghost after = self.figs@.push(fig);
                let ghost k = self.done as int;
                proof {
                    lemma_walk_prefix(self.rdmult as int, self.start_rd@, before, after, k);
                    assert(walk_stats(after, k).fits(fig.stats()));
                    assert(walk_rd(self.rdmult as int, self.start_rd@, after, k + 1) == walk_rd(
                        self.rdmult as int,
                        self.start_rd@,
                        after,
                        k,
                    ) + rd_value(self.rdmult as int, fig.rate as int, fig.dist as int));
                    assert(t.blk_row <= 16384 && t.blk_col <= 512) by {
                        let a = k / self.per_row as int;
                        let b = k % self.per_row as int;
                        assert(0 <= a <= 1024 && 0 <= b < 32) by (nonlinear_arith)
                            requires
                                a == k / self.per_row as int,
                                b == k % self.per_row as int,
                                0 <= k <= 1024,
                                1 <= self.per_row <= 32,
                        ;
                        assert(0 <= a * self.unit_h <= 16384) by (nonlinear_arith)
                            requires
                                0 <= a <= 1024,
                                1 <= self.unit_h <= 16,
                        ;
                        assert(0 <= b * self.unit_w <= 512) by (nonlinear_arith)
                            requires
                                0 <= b < 32,
                                1 <= self.unit_w <= 16,
                        ;
                    }
                }
                let this = RdStats {
                    rate: fig.rate,
                    dist: fig.dist,
                    sse: fig.sse,
                    skip_txfm: false,
                };
                self.stats.merge(&this);
                self.current_rd = self.current_rd + rdcost(self.rdmult, fig.rate, fig.dist);
                self.winners.push(fig.winner);
                stamp_context(&mut self.above, t.blk_col, self.unit_w, fig.winner.txb_ctx as i8);
                stamp_context(&mut self.left, t.blk_row, self.unit_h, fig.winner.txb_ctx as i8);
                self.done = self.done + 1;
                self.figs = Ghost(after);
                self.over = self.current_rd > self.ref_best_rd;
                proof {
                    assert(within_budget(
                        self.rdmult as int,
                        self.start_rd@,
                        before,
                        self.ref_best_rd as int,
                        k,
                    ));
                    assert forall|j: int| 0 <= j <= k implies #[trigger] walk_rd(
                        self.rdmult as int,
                        self.start_rd@,
                        after,
                        j,
                    ) <= self.ref_best_rd by {
                        lemma_walk_prefix(self.rdmult as int, self.start_rd@, before, after, j);
                        assert(walk_rd(self.rdmult as int, self.start_rd@, before, j)
                            <= self.ref_best_rd);
                    }
                    assert(self.winners@ =~= after.map_values(|f: TxbFigures| f.winner));
                }
            },
        }
    }

    /// The figures of the whole walk and its winners in raster order, or
    /// `None` when the running cost passed the reference at any block.
    pub fn finish(self) -> (r: Option<(RdStats, Vec<TxbWinner>)>)
        requires
            self.valid(),
        ensures
            r is None <==> self.over(),
            r matches Some(w) ==> {
                &&& w.0 == walk_stats(self.figs(), self.figs().len() as int)
                &&& w.1@ == self.figs().map_values(|f: TxbFigures| f.winner)
            },
    {
        if self.over {
            None
        } else {
            Some((self.stats, self.winners))
        }
    }
}

proof fn lemma_steps(n: int, d: int)
    requires
        1 <= n <= 32,
        1 <= d <= 16,
    ensures
        1 <= steps(n, d) <= 32,
{
    assert(1 <= (n + d - 1) / d <= 32) by (nonlinear_arith)
        requires
            1 <= n <= 32,
            1 <= d <= 16,
    ;
}

fn copy_contexts(ctx: &[i8], n: usize) -> (r: Vec<i8>)
    requires
        n <= ctx.len(),
    ensures
        r@ == ctx@.subrange(0, n as int),
{
    let mut r: Vec<i8> = Vec::new();
    for i in 0..n
        invariant
            n <= ctx.len(),
            r@ == ctx@.subrange(0, i as int),
    {
        r.push(ctx[i]);
    }
    r
}

/// Sums over the first `k` blocks depend on those blocks alone.
proof fn lemma_walk_prefix(
    rdmult: int,
    start: int,
    a: Seq<TxbFigures>,
    b: Seq<TxbFigures>,
    k: int,
)
    requires
        k <= a.len(),
        k <= b.len(),
        forall|i: int| 0 <= i < k ==> a[i] == b[i],
    ensures
        walk_rd(rdmult, start, a, k) == walk_rd(rdmult, start, b, k),
        walk_stats(a, k) == walk_stats(b, k),
        walk_fits(rdmult, start, a, k) == walk_fits(rdmult, start, b, k),
    decreases k,
{
    if k > 0 {
        lemma_walk_prefix(rdmult, start, a, b, k - 1);
    }
}

/// The cost of coding a block with transforms of one size, from what the type
/// searches found for its transform blocks in raster order. `None` when the
/// running cost, which starts at `current_rd_in`, passes `ref_best_rd` at the
/// start or after any block.
pub fn txfm_rd_in_plane_intra(
    bsize: usize,
    tx_size: usize,
    rdmult: i32,
    above_ctx: &[i8],
    left_ctx: &[i8],
    ref_best_rd: i64,
    current_rd_in: i64,
    figs: &[TxbFigures],
) -> (r: Option<(RdStats, Vec<TxbWinner>)>)
    requires
        bsize < 22,
        tx_size < 19,
        above_ctx.len() >= MI_SIZE_WIDE_B[bsize as int],
        left_ctx.len() >= MI_SIZE_HIGH_B[bsize as int],
        figs.len() >= txb_count(bsize as int, tx_size as int),
        walk_fits(
            rdmult as int,
            current_rd_in as int,
            figs@,
            txb_count(bsize as int, tx_size as int),
        ),
    ensures
        ({
            let n = txb_count(bsize as int, tx_size as int);
            &&& r is Some <==> within_budget(
                rdmult as int,
                current_rd_in as int,
                figs@,
                ref_best_rd as int,
                n,
            )
            &&& r matches Some(w) ==> w.0 == walk_stats(figs@, n) && w.1@ == figs@.subrange(
                0,
                n,
            ).map_values(|f: TxbFigures| f.winner)
        }),
{
    let mut walk = PlaneWalk::start(
        bsize,
        tx_size,
        rdmult,
        ref_best_rd,
        current_rd_in,
        above_ctx,
        left_ctx,
    );
    let ghost n = txb_count(bsize as int, tx_size as int);
    let mut k: usize = 0;
    let ghost m = rdmult as int;
    let ghost s = current_rd_in as int;
    assert(figs@.subrange(0, 0) =~= Seq::<TxbFigures>::empty());
    loop
        invariant
            walk.valid(),
            walk.figs() == figs@.subrange(0, k as int),
            k <= n <= figs.len(),
            n == walk.total(),
            walk.rdmult() == m == rdmult,
            walk.start_rd() == s == current_rd_in,
            walk.ref_best_rd() == ref_best_rd,
            walk.over() == !within_budget(m, s, figs@.subrange(0, k as int), ref_best_rd as int, k as int),
            walk_fits(m, s, figs@, n),
        ensures
            walk.valid(),
            k <= n,
            walk.figs() == figs@.subrange(0, k as int),
            walk.over() == !within_budget(m, s, figs@.subrange(0, k as int), ref_best_rd as int, k as int),
            walk.over() || k == n,
        decreases n - k,
    {
        match walk.next() {
            None => {
                break;
            },
            Some(_task) => {
                proof {
                    let pre = figs@.subrange(0, k as int).push(figs@[k as int]);
                    assert(pre =~= figs@.subrange(0, k + 1));
                    lemma_walk_prefix(m, s, pre, figs@, k + 1);
                    lemma_fits_prefix(m, s, figs@, k + 1, n);
                }
                walk.commit(figs[k]);
                k = k + 1;
                assert(walk.figs() =~= figs@.subrange(0, k as int));
            },
        }
    }
    proof {
        let pre = figs@.subrange(0, k as int);
        assert forall|j: int| 0 <= j <= k implies #[trigger] walk_rd(m, s, figs@, j) == walk_rd(
            m,
            s,
            pre,
            j,
        ) by {
            lemma_walk_prefix(m, s, pre, figs@, j);
        }
        lemma_walk_prefix(m, s, pre, figs@, k as int);
        if walk.over() {
            let j = choose|j: int|
                0 <= j <= k && !(#[trigger] walk_rd(m, s, pre, j) <= ref_best_rd);
            assert(walk_rd(m, s, figs@, j) > ref_best_rd);
        } else {
            assert forall|j: int| 0 <= j <= n implies #[trigger] walk_rd(m, s, figs@, j)
                <= ref_best_rd by {
                assert(walk_rd(m, s, pre, j) <= ref_best_rd);
            }
        }
    }
    walk.finish()
}

proof fn lemma_fits_prefix(rdmult: int, start: int, figs: Seq<TxbFigures>, k: int, n: int)
    requires
        walk_fits(rdmult, start, figs, n),
        k <= n,
    ensures
        walk_fits(rdmult, start, figs, k),
    decreases n,
{
    if k < n && n > 0 {
        lemma_fits_prefix(rdmult, start, figs, k, n - 1);
    }
}

/// Whether a block signals its transform size: all but 4x4 do.
pub fn block_signals_txsize(bsize: usize) -> (r: bool)
    ensures
        r == (bsize > crate::block::BLOCK_4X4),
{
    bsize > crate::block::BLOCK_4X4
}

/// The header costs and the multiplier of a uniform transform size.
#[derive(Clone, Copy, Debug, PartialEq, Eq, Structural)]
pub struct UniformRates {
    pub rdmult: i32,
    /// The frame lets blocks choose their transform size.
    pub tx_mode_is_select: bool,
    /// Cost of signalling this size.
    pub tx_size_cost: i32,
    /// Cost of signalling that the block has coefficients.
    pub no_skip_txfm_rate: i32,
}

impl UniformRates {
    /// The size is paid for only where it is signalled.
    pub open spec fn size_rate(self, bsize: int) -> int {
        if self.tx_mode_is_select && bsize > crate::block::BLOCK_4X4 {
            self.tx_size_cost as int
        } else {
            0
        }
    }

    /// The header cost the walk starts from.
    pub open spec fn header_rd(self, bsize: int) -> int {
        rd_value(self.rdmult as int, self.no_skip_txfm_rate + self.size_rate(bsize), 0)
    }

    /// The header rates can be added up.
    pub open spec fn valid(self, bsize: int) -> bool {
        i32::MIN <= self.no_skip_txfm_rate + self.size_rate(bsize) <= i32::MAX
    }

    /// The running cost that the walk of a block starts from.
    pub fn start_cost(&self, bsize: usize) -> (r: i64)
        requires
            self.valid(bsize as int),
        ensures
            r == self.header_rd(bsize as int),
    {
        rdcost(self.rdmult, self.no_skip_txfm_rate + self.tx_size_rate(bsize), 0)
    }

    fn tx_size_rate(&self, bsize: usize) -> (r: i32)
        ensures
            r == self.size_rate(bsize as int),
    {
        if self.tx_mode_is_select && block_signals_txsize(bsize) {
            self.tx_size_cost
        } else {
            0
        }
    }
}

/// The evaluation of one uniform transform size.
pub struct UniformEval {
    /// The cost, `i64::MAX` when the size is not viable.
    pub rd: i64,
    pub result: Option<(RdStats, Vec<TxbWinner>)>,
}

/// Whether a walk's figures make a viable size.
pub open spec fn viable(walk: Option<(RdStats, Vec<TxbWinner>)>) -> bool {
    walk matches Some(w) && w.0.rate != i32::MAX
}

/// The cost of a uniform transform size from the figures of its walk: an intra
/// block is signalled as having coefficients, and the size's own rate is part
/// of both the cost and the reported rate. A walk that was cut short, or whose
/// rate is invalid, is not viable.
pub fn uniform_txfm_yrd_intra(
    rates: &UniformRates,
    bsize: usize,
    walk: Option<(RdStats, Vec<TxbWinner>)>,
) -> (r: UniformEval)
    requires
        rates.valid(bsize as int),
        viable(walk) ==> {
            let w = walk.unwrap();
            &&& -MAX_DIST <= w.0.dist <= MAX_DIST
            &&& i32::MIN <= w.0.rate + rates.no_skip_txfm_rate <= i32::MAX
            &&& i32::MIN <= w.0.rate + rates.no_skip_txfm_rate + rates.size_rate(bsize as int)
                <= i32::MAX
            &&& i32::MIN <= w.0.rate + rates.size_rate(bsize as int) <= i32::MAX
        },
    ensures
        r.result is Some <==> viable(walk),
        !viable(walk) ==> r.rd == i64::MAX,
        viable(walk) ==> {
            let size = rates.size_rate(bsize as int);
            let w = walk.unwrap();
            let o = r.result.unwrap();
            &&& r.rd == rd_value(
                rates.rdmult as int,
                w.0.rate + rates.no_skip_txfm_rate + size,
                w.0.dist as int,
            )
            &&& o.0 == (RdStats { rate: (w.0.rate + size) as i32, ..w.0 })
            &&& o.1@ == w.1@
        },
{
    match walk {
        None => UniformEval { rd: i64::MAX, result: None },
        Some((stats, winners)) => {
            if stats.rate == i32::MAX {
                return UniformEval { rd: i64::MAX, result: None };
            }
            let size_rate: i32 = rates.tx_size_rate(bsize);
            let rd: i64 = rdcost(
                rates.rdmult,
                stats.rate + rates.no_skip_txfm_rate + size_rate,
                stats.dist,
            );
            let with_size = RdStats {
                rate: stats.rate + size_rate,
                dist: stats.dist,
                sse: stats.sse,
                skip_txfm: stats.skip_txfm,
            };
            UniformEval { rd, result: Some((with_size, winners)) }
        },
    }
}

/// The largest transform of each block size.
pub const MAX_TXSIZE_RECT_LOOKUP: [usize; 22] = [
    0, 5, 6, 1, 7, 8, 2, 9, 10, 3, 11, 12, 4, 4, 4, 4, 13, 14, 15, 16, 17, 18,
];

/// The transform one split below each size; rectangles halve their long side.
pub const SUB_TX_SIZE_MAP: [usize; 19] = [
    0, 0, 1, 2, 3, 0, 0, 1, 1, 2, 2, 3, 3, 5, 6, 7, 8, 9, 10,
];

/// Deepest transform split of an intra block.
pub const MAX_TX_DEPTH: i32 = 2;

/// First depth of the transform-size sweep at speed 0: square blocks skip the
/// largest transform's own depth.
pub fn get_search_init_depth_intra_speed0(mi_width: usize, mi_height: usize) -> (r: i32)
    ensures
        r == if mi_width == mi_height {
            1int
        } else {
            0
        },
{
    if mi_height != mi_width {
        0
    } else {
        1
    }
}

/// The chosen transform size of a block.
pub struct TxSizeChoice {
    pub best_tx_size: usize,
    pub best_rd: i64,
    pub stats: RdStats,
    pub winners: Vec<TxbWinner>,
}

/// The settings of a depth sweep.
#[derive(Clone, Copy, Debug, PartialEq, Eq, Structural)]
pub struct DepthSweep {
    pub bsize: usize,
    pub source_variance: u32,
    pub enable_tx64: bool,
    pub enable_rect_tx: bool,
}

/// Where a sweep stands: the best depth and whether it has stopped.
pub struct SweepModel {
    pub best: Option<int>,
    pub stopped: bool,
}

impl DepthSweep {
    pub open spec fn init_depth(self) -> int {
        if MI_SIZE_WIDE_B[self.bsize as int] == MI_SIZE_HIGH_B[self.bsize as int] {
            1
        } else {
            0
        }
    }

    /// The transform size at a depth of the sweep.
    pub open spec fn tx_at(self, depth: int) -> int
        decreases depth,
    {
        if depth <= self.init_depth() {
            MAX_TXSIZE_RECT_LOOKUP[self.bsize as int] as int
        } else {
            SUB_TX_SIZE_MAP[self.tx_at(depth - 1)] as int
        }
    }

    /// A size that the settings rule out.
    pub open spec fn disabled(self, tx: int) -> bool {
        (!self.enable_tx64 && TXSIZE_SQR_UP_MAP[tx] == 4) || (!self.enable_rect_tx && TXS_W[tx]
            != TXS_H[tx])
    }

    /// The cost at a depth, `i64::MAX` where the size is ruled out.
    pub open spec fn rd_at(self, evals: Seq<UniformEval>, depth: int) -> int {
        if self.disabled(self.tx_at(depth)) {
            i64::MAX as int
        } else {
            evals[depth].rd as int
        }
    }

    /// The sweep after the depths before `depth`: the cheapest is kept, the
    /// shallower one on a tie. It stops at 4x4, and on a low-contrast block
    /// once the second depth searched costs more than the first.
    pub open spec fn before(self, evals: Seq<UniformEval>, depth: int) -> SweepModel
        decreases depth,
    {
        if depth <= self.init_depth() {
            SweepModel { best: None, stopped: false }
        } else {
            let s = self.before(evals, depth - 1);
            let d = depth - 1;
            if s.stopped || self.disabled(self.tx_at(d)) {
                s
            } else {
                let rd = evals[d].rd as int;
                let best_rd = match s.best {
                    Some(b) => evals[b].rd as int,
                    None => i64::MAX as int,
                };
                let dearer = self.init_depth() < d < MAX_TX_DEPTH && self.source_variance < 256
                    && self.rd_at(evals, d - 1) != i64::MAX && rd > self.rd_at(evals, d - 1);
                SweepModel {
                    best: if rd < best_rd {
                        Some(d)
                    } else {
                        s.best
                    },
                    stopped: self.tx_at(d) == 0 || dearer,
                }
            }
        }
    }

    /// The depth the sweep settles on.
    pub open spec fn chosen(self, evals: Seq<UniformEval>) -> Option<int> {
        self.before(evals, 3).best
    }
}

fn copy_winners(v: &Vec<TxbWinner>) -> (r: Vec<TxbWinner>)
    ensures
        r@ == v@,
{
    let mut r: Vec<TxbWinner> = Vec::new();
    for i in 0..v.len()
        invariant
            r@ == v@.subrange(0, i as int),
    {
        r.push(v[i]);
    }
    assert(v@.subrange(0, v@.len() as int) == v@);
    r
}

/// The choice reports the evaluation at a depth.
pub open spec fn choice_reports(c: TxSizeChoice, tx_size: int, e: UniformEval) -> bool {
    e.result matches Some(w) && c.best_tx_size == tx_size && c.best_rd == e.rd && c.stats == w.0
        && c.winners@ == w.1@
}

/// Sweep the transform depths of a luma intra block and choose the cheapest.
/// `evals[d]` is the evaluation of the size at depth `d`; depths that are not
/// reached are not read. `None` when no depth is viable.
pub fn choose_tx_size_type_from_rd_intra(sweep: &DepthSweep, evals: &[UniformEval]) -> (r: Option<
    TxSizeChoice,
>)
    requires
        sweep.bsize < 22,
        evals.len() == 3,
        forall|d: int|
            0 <= d < 3 && (#[trigger] evals[d]).rd < i64::MAX ==> evals[d].result is Some,
    ensures
        match r {
            Some(c) => sweep.chosen(evals@) matches Some(d) && choice_reports(
                c,
                sweep.tx_at(d),
                evals[d],
            ),
            None => sweep.chosen(evals@) is None,
        },
{
    let init: i32 = get_search_init_depth_intra_speed0(
        MI_SIZE_WIDE_B[sweep.bsize],
        MI_SIZE_HIGH_B[sweep.bsize],
    );
    let mut best: Option<TxSizeChoice> = None;
    let mut best_rd: i64 = i64::MAX;
    let mut prev_rd: i64 = i64::MAX;
    let mut stopped = false;
    let mut tx_size: usize = MAX_TXSIZE_RECT_LOOKUP[sweep.bsize];
    let mut depth: i32 = init;
    let ghost es = evals@;
    while depth <= MAX_TX_DEPTH
        invariant
            sweep.bsize < 22,
            evals.len() == 3,
            es == evals@,
            init == sweep.init_depth(),
            init <= depth <= MAX_TX_DEPTH + 1,
            tx_size < 19,
            tx_size == sweep.tx_at(depth as int),
            depth > init && !stopped ==> prev_rd == sweep.rd_at(es, depth - 1),
            stopped == sweep.before(es, depth as int).stopped,
            forall|d: int|
                0 <= d < 3 && (#[trigger] evals[d]).rd < i64::MAX ==> evals[d].result is Some,
            match sweep.before(es, depth as int).best {
                Some(b) => {
                    &&& 0 <= b < 3
                    &&& best_rd == evals[b].rd
                    &&& best_rd < i64::MAX
                    &&& best matches Some(c) && choice_reports(c, sweep.tx_at(b), evals[b])
                },
                None => best_rd == i64::MAX && best is None,
            },
        decreases MAX_TX_DEPTH + 1 - depth,
    {
        let off = (!sweep.enable_tx64 && TXSIZE_SQR_UP_MAP[tx_size] == 4) || (!sweep.enable_rect_tx
            && TXS_W[tx_size] != TXS_H[tx_size]);
        if !stopped {
            if off {
                prev_rd = i64::MAX;
            } else {
                let e = &evals[depth as usize];
                if e.rd < best_rd {
                    best_rd = e.rd;
                    match &e.result {
                        Some((stats, winners)) => {
                            best = Some(
                                TxSizeChoice {
                                    best_tx_size: tx_size,
                                    best_rd: e.rd,
                                    stats: *stats,
                                    winners: copy_winners(winners),
                                },
                            );
                        },
                        None => {},
                    }
                }
                let dearer = depth > init && depth != MAX_TX_DEPTH && sweep.source_variance < 256
                    && prev_rd != i64::MAX && e.rd > prev_rd;
                stopped = tx_size == 0 || dearer;
                prev_rd = e.rd;
            }
        }
        tx_size = SUB_TX_SIZE_MAP[tx_size];
        depth = depth + 1;
    }
    best
}

/// Choose the transform size of a luma intra block: 4x4 for a lossless block
/// (`smallest` is its evaluation), else the outcome of the depth sweep.
pub fn pick_uniform_tx_size_type_yrd_intra(
    lossless: bool,
    smallest: &UniformEval,
    sweep: &DepthSweep,
    evals: &[UniformEval],
) -> (r: Option<TxSizeChoice>)
    requires
        !lossless ==> {
            &&& sweep.bsize < 22
            &&& evals.len() == 3
            &&& forall|d: int|
                0 <= d < 3 && (#[trigger] evals[d]).rd < i64::MAX ==> evals[d].result is Some
        },
    ensures
        lossless ==> match r {
            Some(c) => choice_reports(c, 0, *smallest),
            None => smallest.result is None,
        },
        !lossless ==> match r {
            Some(c) => sweep.chosen(evals@) matches Some(d) && choice_reports(
                c,
                sweep.tx_at(d),
                evals[d],
            ),
            None => sweep.chosen(evals@) is None,
        },
{
    if lossless {
        return match &smallest.result {
            Some((stats, winners)) => Some(
                TxSizeChoice {
                    best_tx_size: 0,
                    best_rd: smallest.rd,
                    stats: *stats,
                    winners: copy_winners(winners),
                },
            ),
            None => None,
        };
    }
    choose_tx_size_type_from_rd_intra(sweep, evals)
}

/// The transform size to evaluate at `depth`, given the evaluations of the
/// depths before it; `None` when the sweep has stopped, has not begun, or
/// leaves this size out.
pub fn depth_to_search(sweep: &DepthSweep, evals: &[UniformEval], depth: i32) -> (r: Option<usize>)
    requires
        sweep.bsize < 22,
        evals.len() == 3,
        0 <= depth <= MAX_TX_DEPTH,
    ensures
        r == if depth >= sweep.init_depth() && !sweep.before(evals@, depth as int).stopped
            && !sweep.disabled(sweep.tx_at(depth as int)) {
            Some(sweep.tx_at(depth as int) as usize)
        } else {
            None
        },
{
    let init: i32 = get_search_init_depth_intra_speed0(
        MI_SIZE_WIDE_B[sweep.bsize],
        MI_SIZE_HIGH_B[sweep.bsize],
    );
    if depth < init {
        return None;
    }
    let mut d: i32 = init;
    let mut tx_size: usize = MAX_TXSIZE_RECT_LOOKUP[sweep.bsize];
    let mut prev_rd: i64 = i64::MAX;
    let mut stopped = false;
    while d < depth
        invariant
            sweep.bsize < 22,
            evals.len() == 3,
            init == sweep.init_depth(),
            init <= d <= depth <= MAX_TX_DEPTH,
            tx_size < 19,
            tx_size == sweep.tx_at(d as int),
            d > init && !stopped ==> prev_rd == sweep.rd_at(evals@, d - 1),
            stopped == sweep.before(evals@, d as int).stopped,
        decreases depth - d,
    {
        if !stopped {
            if is_disabled(sweep, tx_size) {
                prev_rd = i64::MAX;
            } else {
                let rd: i64 = evals[d as usize].rd;
                let dearer = d > init && d != MAX_TX_DEPTH && sweep.source_variance < 256 && prev_rd
                    != i64::MAX && rd > prev_rd;
                stopped = tx_size == 0 || dearer;
                prev_rd = rd;
            }
        }
        tx_size = SUB_TX_SIZE_MAP[tx_size];
        d = d + 1;
    }
    if stopped || is_disabled(sweep, tx_size) {
        None
    } else {
        Some(tx_size)
    }
}

fn is_disabled(sweep: &DepthSweep, tx_size: usize) -> (r: bool)
    requires
        tx_size < 19,
    ensures
        r == sweep.disabled(tx_size as int),
{
    (!sweep.enable_tx64 && TXSIZE_SQR_UP_MAP[tx_size] == 4) || (!sweep.enable_rect_tx
        && TXS_W[tx_size] != TXS_H[tx_size])
}

impl DepthSweep {
    /// The sweep settles on the cheapest of the sizes it evaluates, and
    /// settles on nothing only when none of them is viable.
    pub proof fn law_sweep_picks_cheapest(self, evals: Seq<UniformEval>, depth: int, d: int)
        requires
            self.init_depth() <= d < depth,
            !self.before(evals, d).stopped,
            !self.disabled(self.tx_at(d)),
        ensures
            match self.before(evals, depth).best {
                Some(b) => self.init_depth() <= b < depth && evals[b].rd <= evals[d].rd,
                None => evals[d].rd == i64::MAX,
            },
        decreases depth,
    {
        self.lemma_best_in_range(evals, depth);
        self.lemma_best_in_range(evals, depth - 1);
        if d < depth - 1 {
            self.law_sweep_picks_cheapest(evals, depth - 1, d);
        }
    }

    proof fn lemma_best_in_range(self, evals: Seq<UniformEval>, depth: int)
        ensures
            self.before(evals, depth).best matches Some(b) ==> self.init_depth() <= b < depth
                && evals[b].rd < i64::MAX,
        decreases depth,
    {
        if depth > self.init_depth() {
            self.lemma_best_in_range(evals, depth - 1);
        }
    }
}

/// Which Walsh-Hadamard kernel a model transform block uses.
#[derive(Clone, Copy, Debug, PartialEq, Eq, Structural)]
pub enum WhtKernel {
    Low4x4,
    Low8x8,
    Low16x16,
    Low32x32,
    High8x8,
    High16x16,
    High32x32,
}

/// The Walsh-Hadamard kernel for a square transform size and a bit depth. The
/// 4x4 kernel serves all depths.
pub fn wht_kernel(tx_size: usize, bd: u8) -> (r: WhtKernel)
    requires
        tx_size <= 3,
    ensures
        r == match (bd > 8, tx_size) {
            (_, 0) => WhtKernel::Low4x4,
            (false, 1) => WhtKernel::Low8x8,
            (false, 2) => WhtKernel::Low16x16,
            (false, _) => WhtKernel::Low32x32,
            (true, 1) => WhtKernel::High8x8,
            (true, 2) => WhtKernel::High16x16,
            (true, _) => WhtKernel::High32x32,
        },
{
    if tx_size == 0 {
        WhtKernel::Low4x4
    } else if bd > 8 {
        if tx_size == 1 {
            WhtKernel::High8x8
        } else if tx_size == 2 {
            WhtKernel::High16x16
        } else {
            WhtKernel::High32x32
        }
    } else if tx_size == 1 {
        WhtKernel::Low8x8
    } else if tx_size == 2 {
        WhtKernel::Low16x16
    } else {
        WhtKernel::Low32x32
    }
}

/// Sum of the first `k` costs.
pub open spec fn cost_total(costs: Seq<i32>, k: int) -> int
    decreases k,
{
    if k <= 0 {
        0
    } else {
        cost_total(costs, k - 1) + costs[k - 1]
    }
}

/// The model cost of a luma intra mode: the sum of the transformed absolute
/// differences of the block's model transform blocks, in raster order.
pub fn intra_model_rd_y(bsize: usize, tx_size: usize, satds: &[i32]) -> (r: i64)
    requires
        bsize < 22,
        tx_size <= 3,
        satds.len() == txb_count(bsize as int, tx_size as int),
        satds.len() <= 1024,
    ensures
        r == cost_total(satds@, txb_count(bsize as int, tx_size as int)),
{
    let mut total: i64 = 0;
    for k in 0..satds.len()
        invariant
            satds.len() <= 1024,
            total == cost_total(satds@, k as int),
            -0x8000_0000 * k <= total <= 0x8000_0000 * k,
    {
        total = total + satds[k] as i64;
    }
    total
}

/// The residual of a block at `(row, col)`: source less prediction.
pub open spec fn residual_at(
    src: Seq<u16>,
    src_off: int,
    src_stride: int,
    pred: Seq<u16>,
    w: int,
    k: int,
) -> int {
    src[src_off + (k / w) * src_stride + k % w] - pred[k]
}

/// Subtract a contiguous prediction from the source block at `src_off`.
pub fn subtract_txb(
    src: &[u16],
    src_off: usize,
    src_stride: usize,
    pred: &[u16],
    tx_size: usize,
) -> (r: Vec<i16>)
    requires
        tx_size < 19,
        pred.len() == TXS_W[tx_size as int] * TXS_H[tx_size as int],
        src_off + (TXS_H[tx_size as int] - 1) * src_stride + TXS_W[tx_size as int] <= src.len(),
        forall|i: int| 0 <= i < src.len() ==> (#[trigger] src[i]) < 0x8000,
        forall|i: int| 0 <= i < pred.len() ==> (#[trigger] pred[i]) < 0x8000,
    ensures
        r.len() == pred.len(),
        forall|k: int|
            0 <= k < r.len() ==> #[trigger] r[k] == residual_at(
                src@,
                src_off as int,
                src_stride as int,
                pred@,
                TXS_W[tx_size as int] as int,
                k,
            ),
{
    let w: usize = TXS_W[tx_size];
    let h: usize = TXS_H[tx_size];
    let mut r: Vec<i16> = Vec::new();
    let n: usize = pred.len();
    for k in 0..n
        invariant
            tx_size < 19,
            w == TXS_W[tx_size as int],
            h == TXS_H[tx_size as int],
            n == pred.len() == w * h,
            4 <= w <= 64,
            4 <= h <= 64,
            src_off + (h - 1) * src_stride + w <= src.len(),
            forall|i: int| 0 <= i < src.len() ==> (#[trigger] src[i]) < 0x8000,
            forall|i: int| 0 <= i < pred.len() ==> (#[trigger] pred[i]) < 0x8000,
            r.len() == k,
            forall|j: int|
                0 <= j < k ==> #[trigger] r[j] == residual_at(
                    src@,
                    src_off as int,
                    src_stride as int,
                    pred@,
                    w as int,
                    j,
                ),
    {
        proof {
            let a = k as int / w as int;
            assert(0 <= a <= h - 1) by (nonlinear_arith)
                requires
                    a == k as int / w as int,
                    0 <= k < w * h,
                    w >= 4,
            ;
            assert(0 <= a * src_stride <= (h - 1) * src_stride) by (nonlinear_arith)
                requires
                    0 <= a <= h - 1,
                    src_stride >= 0,
            ;
        }
        let s: i32 = src[src_off + k / w * src_stride + k % w] as i32;
        r.push((s - pred[k] as i32) as i16);
    }
    r
}

/// The figures' sum of one kind over the first `k` blocks.
pub open spec fn figure_sum(figs: Seq<TxbFigures>, of: spec_fn(TxbFigures) -> int, k: int) -> int
    decreases k,
{
    if k <= 0 {
        0
    } else {
        figure_sum(figs, of, k - 1) + of(figs[k - 1])
    }
}

/// The rates of the first `k` blocks together.
pub open spec fn rate_sum(figs: Seq<TxbFigures>, k: int) -> int {
    figure_sum(figs, |f: TxbFigures| f.rate as int, k)
}

/// Every unit of a block lies in one transform block of the walk and in no
/// other: the block that the walk reaches at `k` covers the unit exactly where
/// `k` counts the whole rows of transform blocks above the unit and those to
/// its left in its own row.
pub proof fn law_walk_tiles_the_block(bsize: int, tx_size: int, row: int, col: int, k: int)
    requires
        0 <= bsize < 22,
        0 <= tx_size < 19,
        0 <= row < MI_SIZE_HIGH_B[bsize],
        0 <= col < MI_SIZE_WIDE_B[bsize],
        0 <= k < txb_count(bsize, tx_size),
    ensures
        ({
            let (w, h) = (TXS_W[tx_size] as int / 4, TXS_H[tx_size] as int / 4);
            let n = txbs_per_row(bsize, tx_size);
            let (y, x) = ((k / n) * h, (k % n) * w);
            &&& y <= row < y + h && x <= col < x + w <==> k == (row / h) * n + col / w
            &&& 0 <= (row / h) * n + col / w < txb_count(bsize, tx_size)
        }),
{
    let (w, h) = (TXS_W[tx_size] as int / 4, TXS_H[tx_size] as int / 4);
    let (wide, high) = (MI_SIZE_WIDE_B[bsize] as int, MI_SIZE_HIGH_B[bsize] as int);
    let n = txbs_per_row(bsize, tx_size);
    let m = steps(high, h);
    lemma_steps(wide, w);
    lemma_steps(high, h);
    lemma_cell_of_step(wide, w, col);
    lemma_cell_of_step(high, h, row);
    let (a, b) = (k / n, k % n);
    let (p, q) = (row / h, col / w);
    assert(k == a * n + b && 0 <= b < n) by (nonlinear_arith)
        requires
            a == k / n,
            b == k % n,
            n >= 1,
    ;
    lemma_same_cell(h, row, a);
    lemma_same_cell(w, col, b);
    assert(0 <= p * n + q < n * m) by (nonlinear_arith)
        requires
            0 <= p < m,
            0 <= q < n,
    ;
    if k == p * n + q {
        assert(a == p && b == q) by (nonlinear_arith)
            requires
                a * n + b == p * n + q,
                0 <= b < n,
                0 <= q < n,
        ;
    }
}

proof fn lemma_cell_of_step(n: int, d: int, i: int)
    requires
        1 <= d,
        0 <= i < n,
    ensures
        0 <= i / d < steps(n, d),
{
    assert(0 <= i / d < (n + d - 1) / d) by (nonlinear_arith)
        requires
            1 <= d,
            0 <= i < n,
    ;
}

proof fn lemma_same_cell(d: int, i: int, a: int)
    requires
        1 <= d,
    ensures
        a * d <= i < a * d + d <==> a == i / d,
{
    assert(a * d <= i < a * d + d <==> a == i / d) by (nonlinear_arith)
        requires
            1 <= d,
    ;
}

/// The figures of a walk add up: where the rates stay valid, rate, distortion
/// and energy are each the sum over the blocks, and the block has coefficients
/// as soon as there is a block. The running cost is the starting cost and the
/// cost of each block.
pub proof fn law_walk_figures_add_up(rdmult: int, start: int, figs: Seq<TxbFigures>, k: int)
    requires
        0 <= k <= figs.len(),
        walk_fits(rdmult, start, figs, k),
        forall|j: int| 0 <= j <= k ==> #[trigger] rate_sum(figs, j) < i32::MAX,
        forall|j: int| 0 <= j < k ==> (#[trigger] figs[j]).rate < i32::MAX,
    ensures
        walk_stats(figs, k).rate == rate_sum(figs, k),
        walk_stats(figs, k).dist == figure_sum(figs, |f: TxbFigures| f.dist as int, k),
        walk_stats(figs, k).sse == figure_sum(figs, |f: TxbFigures| f.sse as int, k),
        walk_stats(figs, k).skip_txfm == (k == 0),
        walk_rd(rdmult, start, figs, k) == start + figure_sum(
            figs,
            |f: TxbFigures| rd_value(rdmult, f.rate as int, f.dist as int),
            k,
        ),
    decreases k,
{
    if k > 0 {
        law_walk_figures_add_up(rdmult, start, figs, k - 1);
        assert(rate_sum(figs, k) < i32::MAX);
        assert(rate_sum(figs, k) == rate_sum(figs, k - 1) + figs[k - 1].rate);
    }
}

/// One invalid rate makes the whole walk invalid.
pub proof fn law_invalid_rate_stays(figs: Seq<TxbFigures>, j: int, k: int)
    requires
        0 <= j < k <= figs.len(),
        figs[j].rate == i32::MAX,
    ensures
        walk_stats(figs, k).rate == i32::MAX,
    decreases k,
{
    if j < k - 1 {
        law_invalid_rate_stays(figs, j, k - 1);
    }
}

/// The largest transform of a block is the block itself, no side over 64
/// samples, and one split halves the longer side of a transform, or both where
/// they are equal, down to 4 samples.
pub proof fn law_transforms_halve(bsize: int, tx: int)
    requires
        0 <= bsize < 22,
        0 <= tx < 19,
    ensures
        TXS_W[MAX_TXSIZE_RECT_LOOKUP[bsize] as int] == min_int(4 * MI_SIZE_WIDE_B[bsize], 64),
        TXS_H[MAX_TXSIZE_RECT_LOOKUP[bsize] as int] == min_int(4 * MI_SIZE_HIGH_B[bsize], 64),
        ({
            let (w, h) = (TXS_W[tx] as int, TXS_H[tx] as int);
            let (v, u) = (
                TXS_W[SUB_TX_SIZE_MAP[tx] as int] as int,
                TXS_H[SUB_TX_SIZE_MAP[tx] as int] as int,
            );
            &&& v == if w >= h && w > 4 { w / 2 } else { w }
            &&& u == if h >= w && h > 4 { h / 2 } else { h }
        }),
{
}

impl UniformRates {
    /// The transform size is paid for on every block over 4x4 of a frame that
    /// lets blocks choose, and nowhere else; the walk starts from the cost of
    /// that and of signalling coefficients.
    pub proof fn law_signalled_size_is_paid_for(self, bsize: int, other: i32)
        ensures
            ({
                let o = (UniformRates { tx_size_cost: other, ..self });
                o.size_rate(bsize) - self.size_rate(bsize) == (if self.tx_mode_is_select && bsize
                    > 0 {
                    other - self.tx_size_cost
                } else {
                    0
                })
            }),
            (UniformRates { tx_size_cost: 0, ..self }).size_rate(bsize) == 0,
            self.size_rate(bsize) == 0 ==> self.header_rd(bsize) == rd_value(
                self.rdmult as int,
                self.no_skip_txfm_rate as int,
                0,
            ),
    {
    }
}

impl DepthSweep {
    /// The size that the sweep settles on is one that the settings allow: no
    /// side is 64 samples long without such transforms, and it is square
    /// without rectangular ones.
    pub proof fn law_chosen_size_is_allowed(self, evals: Seq<UniformEval>, depth: int)
        requires
            self.bsize < 22,
        ensures
            self.before(evals, depth).best matches Some(b) ==> {
                let tx = self.tx_at(b);
                &&& 0 <= tx < 19
                &&& (!self.enable_tx64 ==> (TXS_W[tx] < 64 && TXS_H[tx] < 64))
                &&& (!self.enable_rect_tx ==> TXS_W[tx] == TXS_H[tx])
            },
        decreases depth,
    {
        if depth > self.init_depth() {
            self.law_chosen_size_is_allowed(evals, depth - 1);
            self.lemma_tx_in_range(depth - 1);
        }
    }

    proof fn lemma_tx_in_range(self, depth: int)
        requires
            self.bsize < 22,
        ensures
            0 <= self.tx_at(depth) < 19,
        decreases depth,
    {
        if depth > self.init_depth() {
            self.lemma_tx_in_range(depth - 1);
        }
    }

    /// Of equally cheap sizes the shallower is kept: every size evaluated
    /// before the chosen one costs more.
    pub proof fn law_tie_goes_to_the_shallower(self, evals: Seq<UniformEval>, depth: int, d: int)
        requires
            self.init_depth() <= d < depth,
            !self.before(evals, d).stopped,
            !self.disabled(self.tx_at(d)),
        ensures
            self.before(evals, depth).best matches Some(b) ==> (d < b ==> evals[d].rd
                > evals[b].rd),
        decreases depth,
    {
        self.lemma_best_in_range(evals, depth);
        self.lemma_best_in_range(evals, depth - 1);
        if d < depth - 1 {
            self.law_tie_goes_to_the_shallower(evals, depth - 1, d);
            self.law_sweep_picks_cheapest(evals, depth - 1, d);
        }
    }

    /// A textured block is swept through every depth down to 4x4, whatever the
    /// sizes cost.
    pub proof fn law_textured_block_is_swept_in_full(self, evals: Seq<UniformEval>, depth: int)
        requires
            self.source_variance >= 256,
            forall|d: int| self.init_depth() <= d < depth ==> #[trigger] self.tx_at(d) != 0,
        ensures
            !self.before(evals, depth).stopped,
        decreases depth,
    {
        if depth > self.init_depth() {
            self.law_textured_block_is_swept_in_full(evals, depth - 1);
            assert(self.tx_at(depth - 1) != 0);
        }
    }

    /// On a smooth oblong block the sweep stops after its second depth exactly
    /// where that depth costs more than the first; a first depth that the
    /// settings rule out, or that is not viable, stops nothing.
    pub proof fn law_smooth_block_stops_once_dearer(self, evals: Seq<UniformEval>)
        requires
            self.bsize < 22,
            self.source_variance < 256,
            MI_SIZE_WIDE_B[self.bsize as int] != MI_SIZE_HIGH_B[self.bsize as int],
            !self.disabled(self.tx_at(1)),
            self.tx_at(1) != 0,
        ensures
            self.before(evals, 2).stopped <==> !self.disabled(self.tx_at(0)) && evals[0].rd
                != i64::MAX && evals[1].rd > evals[0].rd,
    {
        reveal_with_fuel(DepthSweep::before, 4);
        assert(self.tx_at(0) != 0);
    }
}

/// The model cost counts each transform block once: one that costs more raises
/// it by as much.
pub proof fn law_model_cost_counts_each_block(costs: Seq<i32>, i: int, v: i32, k: int)
    requires
        0 <= i < k <= costs.len(),
    ensures
        cost_total(costs.update(i, v), k) - cost_total(costs, k) == v - costs[i],
    decreases k,
{
    if i < k - 1 {
        law_model_cost_counts_each_block(costs, i, v, k - 1);
    } else {
        lemma_cost_total_before(costs, i, v, k - 1);
    }
}

proof fn lemma_cost_total_before(costs: Seq<i32>, i: int, v: i32, k: int)
    requires
        0 <= k <= i < costs.len(),
    ensures
        cost_total(costs.update(i, v), k) == cost_total(costs, k),
    decreases k,
{
    if k > 0 {
        lemma_cost_total_before(costs, i, v, k - 1);
    }
}

/// Prediction and residual give the source back, sample by sample.
pub proof fn law_residual_completes_the_prediction(
    src: Seq<u16>,
    off: int,
    stride: int,
    pred: Seq<u16>,
    w: int,
    y: int,
    x: int,
)
    requires
        0 <= y,
        0 <= x < w,
    ensures
        pred[y * w + x] + residual_at(src, off, stride, pred, w, y * w + x) == src[off + y * stride
            + x],
{
    let k = y * w + x;
    assert(k / w == y && k % w == x) by (nonlinear_arith)
        requires
            k == y * w + x,
            0 <= y,
            0 <= x < w,
    ;
}

} // verus!
