//! The chroma transforms of an inter (or block-copy) block: one transform
//! size for both planes, whose types are inherited from luma.
//!
//! The search of a transform block is the caller's; its results are handed in
//! as a tape, the U plane first, each plane in raster order.

use vstd::prelude::*;

use crate::arith::min_int;
use crate::rd::{rd_value, rdcost, MAX_DIST};
use crate::type_search::copy_coeffs;
use crate::tx_search::{TXS_H, TXS_W};
use crate::tx_size_search::stamp_context;
use crate::var_tx::InterLeafResult;
use crate::var_tx_tree::{MAX_LEAF_DIST, TX_SIZE_HIGH_UNIT, TX_SIZE_WIDE_UNIT};

verus! {

/// The samples of a transform block, row by row.
pub open spec fn block_sample<T>(
    src: Seq<T>,
    stride: int,
    blk_row: int,
    blk_col: int,
    w: int,
    k: int,
) -> T {
    src[4 * blk_row * stride + 4 * blk_col + (k / w) * stride + k % w]
}

/// Copy a transform block out of a plane; its position is in units of four
/// samples.
pub fn extract_block<T: Copy>(
    src: &[T],
    stride: usize,
    blk_row: usize,
    blk_col: usize,
    tx_size: usize,
) -> (r: Vec<T>)
    requires
        tx_size < 19,
        4 * blk_row * stride + 4 * blk_col + (TXS_H[tx_size as int] - 1) * stride
            + TXS_W[tx_size as int] <= src.len(),
        4 * blk_row <= usize::MAX,
    ensures
        r.len() == TXS_W[tx_size as int] * TXS_H[tx_size as int],
        forall|k: int|
            0 <= k < r.len() ==> #[trigger] r[k] == block_sample(
                src@,
                stride as int,
                blk_row as int,
                blk_col as int,
                TXS_W[tx_size as int] as int,
                k,
            ),
{
    let w: usize = TXS_W[tx_size];
    let h: usize = TXS_H[tx_size];
    assert(0 <= w * h <= 4096) by (nonlinear_arith)
        requires
            0 <= w <= 64,
            0 <= h <= 64,
    ;
    assert(4 * blk_row * stride >= 0) by (nonlinear_arith)
        requires
            blk_row >= 0,
            stride >= 0,
    ;
    assert((h - 1) * stride >= 0) by (nonlinear_arith)
        requires
            h >= 1,
            stride >= 0,
    ;
    let base: usize = 4 * blk_row * stride + 4 * blk_col;
    let n: usize = w * h;
    let mut r: Vec<T> = Vec::new();
    for k in 0..n
        invariant
            tx_size < 19,
            w == TXS_W[tx_size as int],
            h == TXS_H[tx_size as int],
            n == w * h,
            4 <= w <= 64,
            4 <= h <= 64,
            base == 4 * blk_row * stride + 4 * blk_col,
            base + (h - 1) * stride + w <= src.len(),
            r.len() == k,
            forall|j: int|
                0 <= j < k ==> #[trigger] r[j] == block_sample(
                    src@,
                    stride as int,
                    blk_row as int,
                    blk_col as int,
                    w as int,
                    j,
                ),
    {
        proof {
            let a = k as int / w as int;
            assert(0 <= a <= h - 1) by (nonlinear_arith)
                requires
                    a == k as int / w as int,
                    0 <= k < w * h,
                    w >= 4,
            ;
            assert(0 <= a * stride <= (h - 1) * stride) by (nonlinear_arith)
                requires
                    0 <= a <= h - 1,
                    stride >= 0,
            ;
        }
        r.push(src[base + k / w * stride + k % w]);
    }
    r
}

/// One coded chroma transform block.
pub struct InterUvLeaf {
    pub blk_row: usize,
    pub blk_col: usize,
    pub tx_type: usize,
    pub eob: u16,
    pub txb_ctx: u8,
    pub txb_skip_ctx: usize,
    pub dc_sign_ctx: usize,
    pub qcoeff: Vec<i32>,
    pub dqcoeff: Vec<i32>,
}

impl InterUvLeaf {
    /// The leaf is what the search found for block `k` of a plane.
    pub open spec fn is_block(self, env: InterUvEnv, k: int, l: InterLeafResult) -> bool {
        &&& self.blk_row == env.row_of(k)
        &&& self.blk_col == env.col_of(k)
        &&& self.tx_type == l.best_tx_type
        &&& self.eob == l.best_eob
        &&& self.txb_ctx == l.best_txb_ctx
        &&& self.txb_skip_ctx == l.txb_skip_ctx
        &&& self.dc_sign_ctx == l.dc_sign_ctx
        &&& self.qcoeff@ == l.qcoeff@
        &&& self.dqcoeff@ == l.dqcoeff@
    }
}

/// What the chroma search needs to know of its block.
pub struct InterUvEnv<'a> {
    /// The transform size of both planes.
    pub uv_tx_size: usize,
    /// The visible part of the chroma block, in units of four samples.
    pub max_blocks_wide: usize,
    pub max_blocks_high: usize,
    pub rdmult: i32,
    /// Entropy contexts of the neighbours, U then V.
    pub above_ctx: [&'a [i8]; 2],
    pub left_ctx: [&'a [i8]; 2],
}

/// The chroma figures of a block and its transform blocks.
pub struct InterUvResult {
    pub rate: i32,
    pub dist: i64,
    pub sse: i64,
    /// No transform block of either plane has coefficients.
    pub skip_txfm: bool,
    pub u: Vec<InterUvLeaf>,
    pub v: Vec<InterUvLeaf>,
}

/// The running figures of a chroma search.
pub struct UvModel {
    pub rate: int,
    pub dist: int,
    pub sse: int,
    pub skip_txfm: bool,
    /// Cost spent on the current plane.
    pub plane_rd: int,
    /// Contexts of the current plane.
    pub above: Seq<i8>,
    pub left: Seq<i8>,
}

impl<'a> InterUvEnv<'a> {
    pub open spec fn unit_w(self) -> int {
        TX_SIZE_WIDE_UNIT[self.uv_tx_size as int] as int
    }

    pub open spec fn unit_h(self) -> int {
        TX_SIZE_HIGH_UNIT[self.uv_tx_size as int] as int
    }

    /// Transform blocks across, and in all, of one plane.
    pub open spec fn across(self) -> int {
        (self.max_blocks_wide + self.unit_w() - 1) / self.unit_w()
    }

    pub open spec fn count(self) -> int {
        self.across() * ((self.max_blocks_high + self.unit_h() - 1) / self.unit_h())
    }

    /// Position of block `k` of a plane.
    pub open spec fn row_of(self, k: int) -> int {
        (k / self.across()) * self.unit_h()
    }

    pub open spec fn col_of(self, k: int) -> int {
        (k % self.across()) * self.unit_w()
    }

    pub open spec fn valid(self) -> bool {
        &&& self.uv_tx_size < 19
        &&& self.max_blocks_wide <= 32
        &&& self.max_blocks_high <= 32
        &&& self.count() <= 64
    }

    /// Cost of the whole chroma search so far: coding it, or leaving it empty.
    pub open spec fn total_rd(self, s: UvModel) -> int {
        min_int(
            rd_value(self.rdmult as int, s.rate, s.dist),
            rd_value(self.rdmult as int, 0, s.sse),
        )
    }

    /// The figures after the first `i` transform blocks of both planes, or
    /// `None` when the budget is spent: from the start, for a block without a
    /// result, or at the end of a plane.
    pub open spec fn after(
        self,
        tape: Seq<Option<InterLeafResult>>,
        ref_best_rd: int,
        i: int,
    ) -> Option<UvModel>
        decreases i,
    {
        if i <= 0 {
            if ref_best_rd < 0 {
                None
            } else {
                Some(
                    UvModel {
                        rate: 0,
                        dist: 0,
                        sse: 0,
                        skip_txfm: true,
                        plane_rd: 0,
                        above: self.above_ctx[0]@,
                        left: self.left_ctx[0]@,
                    },
                )
            }
        } else {
            match (self.after(tape, ref_best_rd, i - 1), tape[i - 1]) {
                (Some(s), Some(l)) => {
                    let t = self.with_block(s, (i - 1) % self.count(), l);
                    if i % self.count() == 0 {
                        if ref_best_rd != i64::MAX && self.total_rd(t) > ref_best_rd {
                            None
                        } else {
                            Some(
                                UvModel {
                                    plane_rd: 0,
                                    above: self.above_ctx[1]@,
                                    left: self.left_ctx[1]@,
                                    ..t
                                },
                            )
                        }
                    } else {
                        Some(t)
                    }
                },
                _ => None,
            }
        }
    }

    /// The figures with transform block `k` of the current plane added. The
    /// rate is capped at `i32::MAX`.
    pub open spec fn with_block(self, s: UvModel, k: int, l: InterLeafResult) -> UvModel {
        let value = l.best_txb_ctx as i8;
        UvModel {
            rate: min_int(s.rate + l.rate, i32::MAX as int),
            dist: s.dist + l.dist,
            sse: s.sse + l.sse,
            skip_txfm: s.skip_txfm && l.best_eob == 0,
            plane_rd: s.plane_rd + min_int(
                rd_value(self.rdmult as int, l.rate as int, l.dist as int),
                rd_value(self.rdmult as int, 0, l.sse as int),
            ),
            above: crate::var_tx_tree::set_range(s.above, self.col_of(k), self.unit_w(), value),
            left: crate::var_tx_tree::set_range(s.left, self.row_of(k), self.unit_h(), value),
        }
    }
}

/// Bound on the costs of a plane's transform blocks.
pub const MAX_UV_COST: i64 = 0x2000_0000_0000_0000;

impl<'a> InterUvEnv<'a> {
    /// The cost that the next block may spend, the difference of the reference
    /// and what its plane has spent, fits in 64 bits. A reference that is no
    /// closer than `MAX_UV_COST` to the largest number leaves room for every
    /// difference.
    pub open spec fn budget_fits(
        self,
        tape: Seq<Option<InterLeafResult>>,
        ref_best_rd: int,
    ) -> bool {
        ||| ref_best_rd == i64::MAX
        ||| ref_best_rd <= i64::MAX - MAX_UV_COST
        ||| tape.len() >= 2 * self.count()
        ||| (self.after(tape, ref_best_rd, tape.len() as int) matches Some(s) ==> ref_best_rd
            - s.plane_rd <= i64::MAX)
    }
}

/// A chroma transform block whose search is needed next.
pub struct UvRequest {
    /// 0 for U, 1 for V.
    pub plane: usize,
    pub blk_row: usize,
    pub blk_col: usize,
    /// The cost the search may still spend.
    pub budget: i64,
    pub above: Vec<i8>,
    pub left: Vec<i8>,
}

impl UvRequest {
    /// The request is for block `i` of both planes, the figures standing at
    /// `s`.
    pub open spec fn asks_for(self, env: InterUvEnv, s: UvModel, ref_best_rd: int, i: int) -> bool {
        let k = i % env.count();
        &&& self.plane == i / env.count()
        &&& self.blk_row == env.row_of(k)
        &&& self.blk_col == env.col_of(k)
        &&& self.budget == if ref_best_rd == i64::MAX {
            i64::MAX as int
        } else {
            ref_best_rd - s.plane_rd
        }
        &&& self.above@ == s.above
        &&& self.left@ == s.left
    }
}

/// One step of a chroma search.
pub enum UvStep {
    Need(UvRequest),
    /// The search is done; `None` when its budget is spent.
    Done(Option<InterUvResult>),
}

/// A result in range.
pub open spec fn uv_leaf_valid(l: Option<InterLeafResult>) -> bool {
    match l {
        Some(l) => {
            &&& 0 <= l.rate
            &&& -MAX_LEAF_DIST <= l.dist <= MAX_LEAF_DIST
            &&& -MAX_LEAF_DIST <= l.sse <= MAX_LEAF_DIST
        },
        None => true,
    }
}

struct UvState {
    rate: i32,
    dist: i64,
    sse: i64,
    skip_txfm: bool,
    plane_rd: i64,
    above: Vec<i8>,
    left: Vec<i8>,
}

impl UvState {
    spec fn model(self) -> UvModel {
        UvModel {
            rate: self.rate as int,
            dist: self.dist as int,
            sse: self.sse as int,
            skip_txfm: self.skip_txfm,
            plane_rd: self.plane_rd as int,
            above: self.above@,
            left: self.left@,
        }
    }

    /// The figures of at most `i` blocks.
    spec fn within(self, i: int) -> bool {
        &&& 0 <= self.rate
        &&& -i * MAX_LEAF_DIST <= self.dist <= i * MAX_LEAF_DIST
        &&& -i * MAX_LEAF_DIST <= self.sse <= i * MAX_LEAF_DIST
        &&& -i * 0x40_0000_0000_0000 <= self.plane_rd <= i * 0x40_0000_0000_0000
    }
}

proof fn lemma_leaf_cost(rdmult: i32, rate: int, dist: int)
    requires
        0 <= rate <= i32::MAX,
        -MAX_LEAF_DIST <= dist <= MAX_LEAF_DIST,
    ensures
        -0x40_0000_0000_0000 <= rd_value(rdmult as int, rate, dist) <= 0x40_0000_0000_0000,
{
    assert(-0x4000_0000_0000_0000 <= rate * rdmult <= 0x4000_0000_0000_0000) by (nonlinear_arith)
        requires
            0 <= rate <= 0x7fff_ffff,
            -0x8000_0000 <= rdmult <= 0x7fff_ffff,
    ;
}

proof fn lemma_within(i: int)
    requires
        0 <= i <= 128,
    ensures
        0 <= i * MAX_LEAF_DIST <= MAX_DIST,
        0 <= i * 0x40_0000_0000_0000 <= 0x2000_0000_0000_0000,
        (i + 1) * MAX_LEAF_DIST == i * MAX_LEAF_DIST + MAX_LEAF_DIST,
        (i + 1) * 0x40_0000_0000_0000 == i * 0x40_0000_0000_0000 + 0x40_0000_0000_0000,
        -i * MAX_LEAF_DIST == -(i * MAX_LEAF_DIST),
        -(i + 1) * MAX_LEAF_DIST == -(i * MAX_LEAF_DIST) - MAX_LEAF_DIST,
        -i * 0x40_0000_0000_0000 == -(i * 0x40_0000_0000_0000),
        -(i + 1) * 0x40_0000_0000_0000 == -(i * 0x40_0000_0000_0000) - 0x40_0000_0000_0000,
{
}

fn copy_contexts(s: &[i8]) -> (r: Vec<i8>)
    ensures
        r@ == s@,
{
    let mut r: Vec<i8> = Vec::new();
    for i in 0..s.len()
        invariant
            r@ == s@.subrange(0, i as int),
    {
        r.push(s[i]);
    }
    assert(s@.subrange(0, s@.len() as int) =~= s@);
    r
}

impl<'a> InterUvEnv<'a> {
    /// Where block `k` of a plane lies.
    fn position(&self, k: usize) -> (r: (usize, usize))
        requires
            self.valid(),
            k < self.count(),
        ensures
            r.0 == self.row_of(k as int),
            r.1 == self.col_of(k as int),
            r.0 <= 1024,
            r.1 <= 1024,
    {
        let w: usize = TX_SIZE_WIDE_UNIT[self.uv_tx_size];
        let h: usize = TX_SIZE_HIGH_UNIT[self.uv_tx_size];
        let across: usize = (self.max_blocks_wide + w - 1) / w;
        proof {
            let a = self.across();
            assert(a * ((self.max_blocks_high + h - 1) / h as int) == self.count());
            assert(a == 0 ==> a * ((self.max_blocks_high + h - 1) / h as int) == 0)
                by (nonlinear_arith);
            assert(0 <= a) by (nonlinear_arith)
                requires
                    a == (self.max_blocks_wide + w - 1) / w as int,
                    w >= 1,
                    self.max_blocks_wide >= 0,
            ;
            assert(a >= 1);
            let i = k as int / a;
            let j = k as int % a;
            assert(0 <= i <= 64 && 0 <= j <= 64) by (nonlinear_arith)
                requires
                    i == k as int / a,
                    j == k as int % a,
                    0 <= k < 64,
                    a >= 1,
            ;
            assert(0 <= i * h <= 1024) by (nonlinear_arith)
                requires
                    0 <= i <= 64,
                    1 <= h <= 16,
            ;
            assert(0 <= j * w <= 1024) by (nonlinear_arith)
                requires
                    0 <= j <= 64,
                    1 <= w <= 16,
            ;
        }
        (k / across * h, k % across * w)
    }

    fn start(&self) -> (r: UvState)
        ensures
            r.within(0),
            forall|tape: Seq<Option<InterLeafResult>>, ref_best_rd: int|
                ref_best_rd >= 0 ==> #[trigger] self.after(tape, ref_best_rd, 0) == Some(
                    r.model(),
                ),
    {
        UvState {
            rate: 0,
            dist: 0,
            sse: 0,
            skip_txfm: true,
            plane_rd: 0,
            above: copy_contexts(self.above_ctx[0]),
            left: copy_contexts(self.left_ctx[0]),
        }
    }

    /// Add the result of block `k` of the current plane.
    fn add_block(&self, s: UvState, k: usize, l: &InterLeafResult, Ghost(i): Ghost<int>) -> (r:
        UvState)
        requires
            self.valid(),
            k < self.count(),
            0 <= i < 128,
            s.within(i),
            uv_leaf_valid(Some(*l)),
        ensures
            r.model() == self.with_block(s.model(), k as int, *l),
            r.within(i + 1),
    {
        let mut s = s;
        let ghost before = s.model();
        let (row, col) = self.position(k);
        proof {
            lemma_within(i);
            lemma_leaf_cost(self.rdmult, l.rate as int, l.dist as int);
            lemma_leaf_cost(self.rdmult, 0, l.sse as int);
        }
        let no_skip_rd: i64 = rdcost(self.rdmult, l.rate, l.dist);
        let skip_rd: i64 = rdcost(self.rdmult, 0, l.sse);
        let sum: i64 = s.rate as i64 + l.rate as i64;
        s.rate = if sum < i32::MAX as i64 { sum as i32 } else { i32::MAX };
        s.dist = s.dist + l.dist;
        s.sse = s.sse + l.sse;
        s.skip_txfm = s.skip_txfm && l.best_eob == 0;
        s.plane_rd = s.plane_rd + if no_skip_rd < skip_rd { no_skip_rd } else { skip_rd };
        let w: usize = TX_SIZE_WIDE_UNIT[self.uv_tx_size];
        let h: usize = TX_SIZE_HIGH_UNIT[self.uv_tx_size];
        stamp_context(&mut s.above, col, w, l.best_txb_ctx as i8);
        stamp_context(&mut s.left, row, h, l.best_txb_ctx as i8);
        proof {
            let t = self.with_block(before, k as int, *l);
            assert(s.above@ =~= t.above);
            assert(s.left@ =~= t.left);
        }
        s
    }

    fn total_cost(&self, s: &UvState, Ghost(i): Ghost<int>) -> (r: i64)
        requires
            0 <= i <= 128,
            s.within(i),
        ensures
            r == self.total_rd(s.model()),
    {
        proof {
            lemma_within(i);
        }
        let this_rd: i64 = rdcost(self.rdmult, s.rate, s.dist);
        let skip_rd: i64 = rdcost(self.rdmult, 0, s.sse);
        if this_rd < skip_rd {
            this_rd
        } else {
            skip_rd
        }
    }

    fn leaf(&self, k: usize, l: &InterLeafResult) -> (r: InterUvLeaf)
        requires
            self.valid(),
            k < self.count(),
        ensures
            r.is_block(*self, k as int, *l),
    {
        let (blk_row, blk_col) = self.position(k);
        InterUvLeaf {
            blk_row,
            blk_col,
            tx_type: l.best_tx_type,
            eob: l.best_eob,
            txb_ctx: l.best_txb_ctx,
            txb_skip_ctx: l.txb_skip_ctx,
            dc_sign_ctx: l.dc_sign_ctx,
            qcoeff: copy_coeffs(&l.qcoeff),
            dqcoeff: copy_coeffs(&l.dqcoeff),
        }
    }
}

proof fn lemma_uv_sticky(
    env: InterUvEnv,
    tape: Seq<Option<InterLeafResult>>,
    ref_best_rd: int,
    i: int,
    n: int,
)
    requires
        env.after(tape, ref_best_rd, i) is None,
        i <= n,
    ensures
        env.after(tape, ref_best_rd, n) is None,
    decreases n,
{
    if i < n && n > 0 {
        lemma_uv_sticky(env, tape, ref_best_rd, i, n - 1);
    }
}

/// The result reports the figures and the blocks of both planes.
pub open spec fn uv_reports(
    r: InterUvResult,
    env: InterUvEnv,
    tape: Seq<Option<InterLeafResult>>,
    s: UvModel,
) -> bool {
    let n = env.count();
    &&& r.rate == s.rate
    &&& r.dist == s.dist
    &&& r.sse == s.sse
    &&& r.skip_txfm == s.skip_txfm
    &&& r.u@.len() == n
    &&& r.v@.len() == n
    &&& plane_matches(r.u@, env, tape, 0)
    &&& plane_matches(r.v@, env, tape, n)
}

/// The leaves are what the tape holds for a plane from `from` on.
pub open spec fn plane_matches(
    leaves: Seq<InterUvLeaf>,
    env: InterUvEnv,
    tape: Seq<Option<InterLeafResult>>,
    from: int,
) -> bool {
    forall|k: int|
        0 <= k < leaves.len() ==> slot_matches(#[trigger] leaves[k], env, k, tape[from + k])
}

/// The leaf is the result for block `k`.
pub open spec fn slot_matches(
    leaf: InterUvLeaf,
    env: InterUvEnv,
    k: int,
    result: Option<InterLeafResult>,
) -> bool {
    match result {
        Some(l) => leaf.is_block(env, k, l),
        None => false,
    }
}

/// The chroma transforms of an inter block, over the blocks searched so far.
pub fn txfm_uvrd_inter(
    env: &InterUvEnv<'_>,
    tape: &[Option<InterLeafResult>],
    ref_best_rd: i64,
) -> (r: UvStep)
    requires
        env.valid(),
        forall|i: int| 0 <= i < tape.len() ==> uv_leaf_valid(#[trigger] tape[i]),
        env.budget_fits(tape@, ref_best_rd as int),
    ensures
        ({
            let n = 2 * env.count();
            let m = min_int(tape.len() as int, n);
            match env.after(tape@, ref_best_rd as int, m) {
                None => r matches UvStep::Done(None),
                Some(s) => if tape.len() < n {
                    r matches UvStep::Need(q) && q.asks_for(*env, s, ref_best_rd as int, m)
                } else {
                    r matches UvStep::Done(Some(res)) && uv_reports(res, *env, tape@, s)
                },
            }
        }),
{
    let ghost total = 2 * env.count();
    let ghost goal = min_int(tape.len() as int, total);
    if ref_best_rd < 0 {
        proof {
            lemma_uv_sticky(*env, tape@, ref_best_rd as int, 0, goal);
        }
        return UvStep::Done(None);
    }
    let w: usize = TX_SIZE_WIDE_UNIT[env.uv_tx_size];
    let h: usize = TX_SIZE_HIGH_UNIT[env.uv_tx_size];
    let across: usize = (env.max_blocks_wide + w - 1) / w;
    let down: usize = (env.max_blocks_high + h - 1) / h;
    assert(across * down == env.count());
    let n: usize = across * down;
    let mut u: Vec<InterUvLeaf> = Vec::new();
    let mut v: Vec<InterUvLeaf> = Vec::new();
    let mut s = env.start();
    let mut i: usize = 0;
    while i < 2 * n && i < tape.len()
        invariant
            env.valid(),
            forall|i: int| 0 <= i < tape.len() ==> uv_leaf_valid(#[trigger] tape[i]),
            0 <= ref_best_rd,
            env.budget_fits(tape@, ref_best_rd as int),
            n == env.count(),
            n <= 64,
            total == 2 * n,
            goal == min_int(tape.len() as int, total),
            i <= 2 * n,
            i <= tape.len(),
            s.within(i as int),
            env.after(tape@, ref_best_rd as int, i as int) == Some(s.model()),
            u@.len() == min_int(i as int, n as int),
            v@.len() == i - u@.len(),
            plane_matches(u@, *env, tape@, 0),
            plane_matches(v@, *env, tape@, n as int),
        decreases 2 * n - i,
    {
        match &tape[i] {
            None => {
                proof {
                    assert(env.after(tape@, ref_best_rd as int, i + 1) is None);
                    lemma_uv_sticky(*env, tape@, ref_best_rd as int, i + 1, goal);
                }
                return UvStep::Done(None);
            },
            Some(l) => {
                let k: usize = if i < n { i } else { i - n };
                proof {
                    assert(uv_leaf_valid(tape@[i as int]));
                    lemma_plane_index(i as int, n as int);
                    lemma_within(i as int);
                }
                s = env.add_block(s, k, l, Ghost(i as int));
                let leaf = env.leaf(k, l);
                if i < n {
                    u.push(leaf);
                } else {
                    v.push(leaf);
                }
                proof {
                    assert(slot_matches(
                        if i < n {
                            u@[k as int]
                        } else {
                            v@[k as int]
                        },
                        *env,
                        k as int,
                        tape@[i as int],
                    ));
                }
                i = i + 1;
                if i == n || i == 2 * n {
                    if ref_best_rd != i64::MAX && env.total_cost(&s, Ghost(i as int))
                        > ref_best_rd {
                        proof {
                            assert(env.after(tape@, ref_best_rd as int, i as int) is None);
                            lemma_uv_sticky(*env, tape@, ref_best_rd as int, i as int, goal);
                        }
                        return UvStep::Done(None);
                    }
                    proof {
                        lemma_within(i as int);
                    }
                    s = UvState {
                        rate: s.rate,
                        dist: s.dist,
                        sse: s.sse,
                        skip_txfm: s.skip_txfm,
                        plane_rd: 0,
                        above: copy_contexts(env.above_ctx[1]),
                        left: copy_contexts(env.left_ctx[1]),
                    };
                }
            },
        }
    }
    if i < 2 * n {
        proof {
            lemma_plane_index(i as int, n as int);
            lemma_within(i as int);
        }
        let k: usize = if i < n { i } else { i - n };
        let (blk_row, blk_col) = env.position(k);
        return UvStep::Need(
            UvRequest {
                plane: if i < n {
                    0
                } else {
                    1
                },
                blk_row,
                blk_col,
                budget: if ref_best_rd == i64::MAX {
                    i64::MAX
                } else {
                    ref_best_rd - s.plane_rd
                },
                above: s.above,
                left: s.left,
            },
        );
    }
    UvStep::Done(
        Some(
            InterUvResult {
                rate: s.rate,
                dist: s.dist,
                sse: s.sse,
                skip_txfm: s.skip_txfm,
                u,
                v,
            },
        ),
    )
}

proof fn lemma_plane_index(i: int, n: int)
    requires
        1 <= n,
        0 <= i < 2 * n,
    ensures
        i % n == if i < n {
            i
        } else {
            i - n
        },
        i / n == if i < n {
            0int
        } else {
            1
        },
        ((i + 1) % n == 0) == (i + 1 == n || i + 1 == 2 * n),
{
    if i < n {
        vstd::arithmetic::div_mod::lemma_fundamental_div_mod_converse(i, n, 0, i);
    } else {
        vstd::arithmetic::div_mod::lemma_fundamental_div_mod_converse(i, n, 1, i - n);
    }
    if i + 1 < n {
        vstd::arithmetic::div_mod::lemma_fundamental_div_mod_converse(i + 1, n, 0, i + 1);
    } else if i + 1 < 2 * n {
        vstd::arithmetic::div_mod::lemma_fundamental_div_mod_converse(i + 1, n, 1, i + 1 - n);
    } else {
        vstd::arithmetic::div_mod::lemma_fundamental_div_mod_converse(i + 1, n, 2, 0);
    }
}

/// Sum of `f` over the first `n` results.
pub open spec fn leaf_sum(
    tape: Seq<Option<InterLeafResult>>,
    f: spec_fn(InterLeafResult) -> int,
    n: int,
) -> int
    decreases n,
{
    if n <= 0 {
        0
    } else {
        leaf_sum(tape, f, n - 1) + match tape[n - 1] {
            Some(l) => f(l),
            None => 0,
        }
    }
}

/// The figures of a chroma search are the sums over the blocks of both planes,
/// the rate being capped, and chroma is empty where every block is. At the end
/// of either plane the search has stayed within the reference: coding what
/// there is so far, or leaving it empty, costs no more.
pub proof fn law_chroma_adds_up_within_the_reference(
    env: InterUvEnv,
    tape: Seq<Option<InterLeafResult>>,
    ref_best_rd: int,
    m: int,
)
    requires
        1 <= env.count(),
        0 <= m <= 2 * env.count(),
        m <= tape.len(),
        forall|i: int| 0 <= i < m ==> uv_leaf_valid(#[trigger] tape[i]),
    ensures
        env.after(tape, ref_best_rd, m) matches Some(s) ==> {
            let rate = leaf_sum(tape, |l: InterLeafResult| l.rate as int, m);
            let k = env.rdmult as int;
            &&& forall|i: int| 0 <= i < m ==> #[trigger] tape[i] is Some
            &&& s.rate == if rate < i32::MAX {
                rate
            } else {
                i32::MAX as int
            }
            &&& s.dist == leaf_sum(tape, |l: InterLeafResult| l.dist as int, m)
            &&& s.sse == leaf_sum(tape, |l: InterLeafResult| l.sse as int, m)
            &&& s.skip_txfm == (forall|i: int|
                #![trigger tape[i]]
                0 <= i < m ==> tape[i]->Some_0.best_eob == 0)
            &&& ref_best_rd >= 0
            &&& m > 0 && (m == env.count() || m == 2 * env.count()) && ref_best_rd != i64::MAX ==> {
                ||| (s.rate * k + 256) / 512 + 128 * s.dist <= ref_best_rd
                ||| 128 * s.sse <= ref_best_rd
            }
        },
    decreases m,
{
    let fr = |l: InterLeafResult| l.rate as int;
    lemma_rates_add(tape, m);
    if m > 0 {
        law_chroma_adds_up_within_the_reference(env, tape, ref_best_rd, m - 1);
        lemma_rates_add(tape, m - 1);
        lemma_plane_index(m - 1, env.count());
        if let Some(s) = env.after(tape, ref_best_rd, m) {
            assert(env.after(tape, ref_best_rd, m - 1) is Some);
            assert(tape[m - 1] is Some);
            let p = env.after(tape, ref_best_rd, m - 1)->Some_0;
            let l = tape[m - 1]->Some_0;
            assert(uv_leaf_valid(tape[m - 1]));
            assert(s.skip_txfm == (p.skip_txfm && l.best_eob == 0));
            if s.skip_txfm {
                assert forall|i: int| #![trigger tape[i]] 0 <= i < m implies tape[i]->Some_0.best_eob
                    == 0 by {
                    if i < m - 1 {
                        assert(tape[i]->Some_0.best_eob == 0);
                    }
                }
            } else if forall|i: int|
                #![trigger tape[i]]
                0 <= i < m ==> tape[i]->Some_0.best_eob == 0 {
                assert(tape[m - 1]->Some_0.best_eob == 0);
                assert forall|i: int| #![trigger tape[i]] 0 <= i < m - 1 implies tape[i]->Some_0.best_eob
                    == 0 by {}
            }
            assert(0 * (env.rdmult as int) == 0) by (nonlinear_arith);
        }
    }
}

proof fn lemma_rates_add(tape: Seq<Option<InterLeafResult>>, m: int)
    requires
        0 <= m <= tape.len(),
        forall|i: int| 0 <= i < m ==> uv_leaf_valid(#[trigger] tape[i]),
    ensures
        leaf_sum(tape, |l: InterLeafResult| l.rate as int, m) >= 0,
    decreases m,
{
    if m > 0 {
        lemma_rates_add(tape, m - 1);
        assert(uv_leaf_valid(tape[m - 1]));
    }
}

/// A search without a reference to stay within fails only for a block without
/// a result.
pub proof fn law_chroma_without_a_reference_is_coded(
    env: InterUvEnv,
    tape: Seq<Option<InterLeafResult>>,
    m: int,
)
    requires
        0 <= m <= tape.len(),
        forall|i: int| 0 <= i < m ==> #[trigger] tape[i] is Some,
    ensures
        env.after(tape, i64::MAX as int, m) is Some,
    decreases m,
{
    if m > 0 {
        law_chroma_without_a_reference_is_coded(env, tape, m - 1);
        assert(tape[m - 1] is Some);
    }
}

/// A transform block holds the samples of its place in the plane: those of its
/// rows and columns after the corner that its position gives.
pub proof fn law_block_holds_its_place<T>(
    src: Seq<T>,
    stride: int,
    blk_row: int,
    blk_col: int,
    w: int,
    y: int,
    x: int,
)
    requires
        0 <= y,
        0 <= x < w,
    ensures
        block_sample(src, stride, blk_row, blk_col, w, y * w + x) == src[(4 * blk_row + y) * stride
            + 4 * blk_col + x],
{
    let k = y * w + x;
    assert(k / w == y && k % w == x) by (nonlinear_arith)
        requires
            k == y * w + x,
            0 <= y,
            0 <= x < w,
    ;
    assert((4 * blk_row + y) * stride == 4 * blk_row * stride + y * stride) by (nonlinear_arith);
}

} // verus!
