//! The transform tree of an inter (or block-copy) luma block: at every node
//! one transform is weighed against splitting into smaller ones, down to two
//! levels.
//!
//! The search of a leaf is the caller's. Its results are handed in as a tape,
//! in the order the tree asks for them; when the tape runs out, the tree
//! answers with the leaf it needs next, its neighbour contexts and its budget.

use vstd::prelude::*;

use crate::arith::{max_int, min_int, pow2i, trunc_div};
use crate::block::{BLK_H_B, BLK_W_B, MI_SIZE_HIGH_B, MI_SIZE_WIDE_B};
use crate::rd::{rd_value, rdcost, MAX_DIST};
use crate::tx_search::{TXSIZE_SQR_UP_MAP, TXS_H, TXS_W};
use crate::tx_size_search::{MAX_TXSIZE_RECT_LOOKUP, SUB_TX_SIZE_MAP};
use crate::type_search::{copy_coeffs, far_above};
use crate::var_tx::InterLeafResult;

verus! {

/// Transform width in units of four samples.
pub const TX_SIZE_WIDE_UNIT: [usize; 19] = [
    1, 2, 4, 8, 16, 1, 2, 2, 4, 4, 8, 8, 16, 1, 4, 2, 8, 4, 16,
];

/// Transform height in units of four samples.
pub const TX_SIZE_HIGH_UNIT: [usize; 19] = [
    1, 2, 4, 8, 16, 2, 1, 4, 2, 8, 4, 16, 8, 4, 1, 8, 2, 16, 4,
];

/// Deepest split of the transform tree.
pub const MAX_VARTX_DEPTH: i32 = 2;

/// The units are quarters of the dimensions in samples.
pub proof fn law_tx_units(tx_size: int)
    requires
        0 <= tx_size < 19,
    ensures
        4 * TX_SIZE_WIDE_UNIT[tx_size] == TXS_W[tx_size],
        4 * TX_SIZE_HIGH_UNIT[tx_size] == TXS_H[tx_size],
{
}

/// Log2 of the width of a transform-size record, in units of four samples.
pub const TW_W_LOG2: [usize; 22] = [
    0, 0, 0, 0, 1, 1, 1, 2, 2, 2, 3, 3, 3, 3, 3, 3, 0, 1, 1, 2, 2, 3,
];

/// Log2 of its height.
pub const TW_H_LOG2: [usize; 22] = [
    0, 0, 0, 0, 1, 1, 1, 2, 2, 2, 3, 3, 3, 3, 3, 3, 1, 0, 2, 1, 3, 2,
];

/// Log2 of the number of records in a row.
pub const STRIDE_LOG2: [usize; 22] = [
    0, 0, 1, 1, 0, 1, 1, 0, 1, 1, 0, 1, 1, 1, 2, 2, 0, 1, 0, 1, 0, 1,
];

/// Index of the transform-size record that covers a position of a block.
pub open spec fn size_index(bsize: int, blk_row: int, blk_col: int) -> int {
    (blk_row / pow2i(TW_H_LOG2[bsize] as int)) * pow2i(STRIDE_LOG2[bsize] as int) + blk_col
        / pow2i(TW_W_LOG2[bsize] as int)
}

fn div_pow2(x: usize, log2: usize) -> (r: usize)
    requires
        log2 <= 3,
    ensures
        r == x as int / pow2i(log2 as int),
        r <= x,
{
    proof {
        crate::arith::lemma_pow2i_values();
    }
    if log2 == 0 {
        x
    } else if log2 == 1 {
        x / 2
    } else if log2 == 2 {
        x / 4
    } else {
        x / 8
    }
}

/// Index of the transform-size record that covers a position of a block, both
/// in units of four samples.
pub fn get_txb_size_index(bsize: usize, blk_row: usize, blk_col: usize) -> (r: usize)
    requires
        bsize < 22,
        blk_row <= 64,
        blk_col <= 64,
    ensures
        r == size_index(bsize as int, blk_row as int, blk_col as int),
{
    proof {
        crate::arith::lemma_pow2i_values();
    }
    let row: usize = div_pow2(blk_row, TW_H_LOG2[bsize]);
    let col: usize = div_pow2(blk_col, TW_W_LOG2[bsize]);
    let stride: usize = if STRIDE_LOG2[bsize] == 0 {
        1
    } else if STRIDE_LOG2[bsize] == 1 {
        2
    } else {
        4
    };
    assert(0 <= row * stride <= 256) by (nonlinear_arith)
        requires
            0 <= row <= 64,
            1 <= stride <= 4,
    ;
    row * stride + col
}

/// The square transform size that covers the longer side of a block.
pub open spec fn largest_square(bsize: int) -> int {
    let side = if BLK_W_B[bsize] > BLK_H_B[bsize] {
        BLK_W_B[bsize] as int
    } else {
        BLK_H_B[bsize] as int
    };
    if side >= 64 {
        4
    } else if side == 32 {
        3
    } else if side == 16 {
        2
    } else if side == 8 {
        1
    } else {
        0
    }
}

/// The context of a node's split flag: how its size relates to the largest
/// transform, and which neighbours use smaller ones.
pub open spec fn split_context(above: u8, left: u8, bsize: int, tx_size: int) -> int {
    if tx_size == 0 {
        0
    } else {
        let largest = largest_square(bsize);
        let category = (if TXSIZE_SQR_UP_MAP[tx_size] != largest && largest > 1 {
            1int
        } else {
            0
        }) + 2 * (4 - largest);
        3 * category + (if above < TXS_W[tx_size] {
            1int
        } else {
            0
        }) + (if left < TXS_H[tx_size] {
            1int
        } else {
            0
        })
    }
}

fn txfm_partition_context(above: u8, left: u8, bsize: usize, tx_size: usize) -> (r: usize)
    requires
        bsize < 22,
        tx_size < 19,
        bsize == 0 ==> tx_size == 0,
    ensures
        r == split_context(above, left, bsize as int, tx_size as int),
        r < 21,
{
    if tx_size == 0 {
        return 0;
    }
    let side: usize = if BLK_W_B[bsize] > BLK_H_B[bsize] { BLK_W_B[bsize] } else { BLK_H_B[bsize] };
    let largest: usize = if side >= 64 {
        4
    } else if side == 32 {
        3
    } else if side == 16 {
        2
    } else if side == 8 {
        1
    } else {
        0
    };
    let inner: usize = if TXSIZE_SQR_UP_MAP[tx_size] != largest && largest > 1 { 1 } else { 0 };
    let small_above: usize = if (above as usize) < TXS_W[tx_size] { 1 } else { 0 };
    let small_left: usize = if (left as usize) < TXS_H[tx_size] { 1 } else { 0 };
    3 * (inner + 2 * (4 - largest)) + small_above + small_left
}

/// What the tree needs to know of its block.
pub struct VarTxEnv<'a> {
    pub bsize: usize,
    /// The part of the block inside the frame, in units of four samples.
    pub max_blocks_wide: usize,
    pub max_blocks_high: usize,
    pub lossless: bool,
    pub bd: u8,
    pub rdmult: i32,
    /// Cost of the split flag, by context.
    pub txfm_partition_cost: &'a [[i32; 2]; 21],
    /// Cost of signalling coefficients and of signalling none.
    pub skip_txfm_cost: [i32; 2],
    /// Entropy contexts of the neighbours.
    pub above_ctx: &'a [i8],
    pub left_ctx: &'a [i8],
    /// Transform dimensions of the neighbours, in samples.
    pub tx_above: &'a [u8],
    pub tx_left: &'a [u8],
    /// Aggressiveness of the early exits; 0 disables them.
    pub adaptive_txb_search_level: i32,
    /// A node without coefficients is not split.
    pub txb_split_cap: bool,
    /// Threshold of the split prediction; negative disables it.
    pub ml_tx_split_thresh: i32,
    /// Depth at which the tree starts.
    pub init_depth: i32,
}

/// Bound on the distortion and the energy of a leaf.
pub const MAX_LEAF_DIST: i64 = 0x4000_0000_0000;

impl<'a> VarTxEnv<'a> {
    pub open spec fn valid(self) -> bool {
        &&& self.bsize < 22
        &&& self.max_blocks_wide <= MI_SIZE_WIDE_B[self.bsize as int]
        &&& self.max_blocks_high <= MI_SIZE_HIGH_B[self.bsize as int]
        &&& self.above_ctx.len() >= MI_SIZE_WIDE_B[self.bsize as int]
        &&& self.left_ctx.len() >= MI_SIZE_HIGH_B[self.bsize as int]
        &&& self.tx_above.len() >= MI_SIZE_WIDE_B[self.bsize as int]
        &&& self.tx_left.len() >= MI_SIZE_HIGH_B[self.bsize as int]
        &&& self.adaptive_txb_search_level < 62
        &&& self.ml_tx_split_thresh > i32::MIN
        &&& 0 <= self.init_depth <= 2
        &&& 0 <= self.skip_txfm_cost[0]
        &&& 0 <= self.skip_txfm_cost[1]
        &&& forall|i: int, j: int|
            0 <= i < 21 && 0 <= j < 2 ==> 0 <= #[trigger] self.txfm_partition_cost[i][j] < i32::MAX
    }
}

/// One answer of the caller: the winner of a leaf's search, the rate of an
/// empty leaf there, and the score of the split prediction (read only where
/// the prediction is on).
pub struct LeafEvent {
    pub leaf: Option<InterLeafResult>,
    pub zero_blk_rate: i32,
    pub split_score: i32,
}

impl LeafEvent {
    pub open spec fn valid(self) -> bool {
        &&& 0 <= self.zero_blk_rate < i32::MAX
        &&& match self.leaf {
            Some(l) => {
                &&& 0 <= l.rate < i32::MAX
                &&& -MAX_LEAF_DIST <= l.dist <= MAX_LEAF_DIST
                &&& -MAX_LEAF_DIST <= l.sse <= MAX_LEAF_DIST
            },
            None => true,
        }
    }
}

/// Rate, distortion, energy and skip flag of a part of the tree. A rate of
/// `i32::MAX` marks them as invalid.
#[derive(Clone, Copy, Debug, PartialEq, Eq, Structural)]
pub struct NodeStats {
    pub rate: i32,
    pub dist: i64,
    pub sse: i64,
    pub skip_txfm: bool,
}

/// The same as numbers.
pub struct NodeModel {
    pub rate: int,
    pub dist: int,
    pub sse: int,
    pub skip_txfm: bool,
}

impl NodeModel {
    pub open spec fn none() -> NodeModel {
        NodeModel { rate: 0, dist: 0, sse: 0, skip_txfm: true }
    }

    pub open spec fn invalid() -> NodeModel {
        NodeModel {
            rate: i32::MAX as int,
            dist: i64::MAX as int,
            sse: i64::MAX as int,
            skip_txfm: false,
        }
    }

    /// Two parts together; the rate is capped at `i32::MAX`, and an invalid
    /// part makes the whole invalid.
    pub open spec fn merged(self, o: NodeModel) -> NodeModel {
        if self.rate == i32::MAX || o.rate == i32::MAX {
            NodeModel::invalid()
        } else {
            NodeModel {
                rate: min_int(self.rate + o.rate, i32::MAX as int),
                dist: self.dist + o.dist,
                sse: self.sse + o.sse,
                skip_txfm: self.skip_txfm && o.skip_txfm,
            }
        }
    }

    /// The cost; `i64::MAX` when invalid.
    pub open spec fn cost(self, rdmult: int) -> int {
        cost_of(rdmult, self.rate, self.dist)
    }
}

/// The cost of a rate and a distortion, `i64::MAX` when one of them is
/// invalid.
pub open spec fn cost_of(rdmult: int, rate: int, dist: int) -> int {
    if rate == i32::MAX || dist == i64::MAX {
        i64::MAX as int
    } else {
        rd_value(rdmult, rate, dist)
    }
}

fn rd_of(rdmult: i32, rate: i32, dist: i64) -> (r: i64)
    requires
        rate == i32::MAX || dist == i64::MAX || -MAX_DIST <= dist <= MAX_DIST,
    ensures
        r == cost_of(rdmult as int, rate as int, dist as int),
{
    if rate == i32::MAX || dist == i64::MAX {
        return i64::MAX;
    }
    rdcost(rdmult, rate, dist)
}

impl NodeStats {
    pub open spec fn model(self) -> NodeModel {
        NodeModel {
            rate: self.rate as int,
            dist: self.dist as int,
            sse: self.sse as int,
            skip_txfm: self.skip_txfm,
        }
    }

    /// Valid figures whose distortion and energy stay within `d`.
    pub open spec fn within(self, d: int) -> bool {
        &&& 0 <= self.rate
        &&& -d <= self.dist <= d
        &&& -d <= self.sse <= d
    }

    fn none() -> (r: Self)
        ensures
            r.model() == NodeModel::none(),
            r.within(0),
    {
        NodeStats { rate: 0, dist: 0, sse: 0, skip_txfm: true }
    }

    fn invalid() -> (r: Self)
        ensures
            r.model() == NodeModel::invalid(),
    {
        NodeStats { rate: i32::MAX, dist: i64::MAX, sse: i64::MAX, skip_txfm: false }
    }

    /// Add the figures of another part.
    fn merge(&self, o: &NodeStats, Ghost(a): Ghost<int>, Ghost(b): Ghost<int>) -> (r: Self)
        requires
            self.rate != i32::MAX ==> self.within(a),
            o.rate != i32::MAX ==> o.within(b),
            0 <= a <= MAX_DIST,
            0 <= b <= MAX_DIST,
        ensures
            r.model() == self.model().merged(o.model()),
            self.rate != i32::MAX && o.rate != i32::MAX ==> r.within(a + b),
    {
        if self.rate == i32::MAX || o.rate == i32::MAX {
            return NodeStats::invalid();
        }
        let sum: i64 = self.rate as i64 + o.rate as i64;
        NodeStats {
            rate: if sum < i32::MAX as i64 {
                sum as i32
            } else {
                i32::MAX
            },
            dist: self.dist + o.dist,
            sse: self.sse + o.sse,
            skip_txfm: self.skip_txfm && o.skip_txfm,
        }
    }
}

/// One coded leaf of the tree.
pub struct VarTxLeaf {
    pub blk_row: usize,
    pub blk_col: usize,
    pub tx_size: usize,
    pub tx_type: usize,
    pub eob: u16,
    pub txb_ctx: u8,
    pub skip_txfm: bool,
    pub qcoeff: Vec<i32>,
    pub dqcoeff: Vec<i32>,
}

/// The same as a value.
pub struct LeafModel {
    pub blk_row: int,
    pub blk_col: int,
    pub tx_size: int,
    pub tx_type: usize,
    pub eob: u16,
    pub txb_ctx: u8,
    pub skip_txfm: bool,
    pub qcoeff: Seq<i32>,
    pub dqcoeff: Seq<i32>,
}

impl VarTxLeaf {
    pub open spec fn model(self) -> LeafModel {
        LeafModel {
            blk_row: self.blk_row as int,
            blk_col: self.blk_col as int,
            tx_size: self.tx_size as int,
            tx_type: self.tx_type,
            eob: self.eob,
            txb_ctx: self.txb_ctx,
            skip_txfm: self.skip_txfm,
            qcoeff: self.qcoeff@,
            dqcoeff: self.dqcoeff@,
        }
    }
}

pub open spec fn leaf_models(s: Seq<VarTxLeaf>) -> Seq<LeafModel> {
    s.map_values(|l: VarTxLeaf| l.model())
}

/// Coefficients of an empty leaf.
pub open spec fn no_coeffs(tx_size: int) -> Seq<i32> {
    Seq::new((TXS_W[tx_size] * TXS_H[tx_size]) as nat, |i: int| 0i32)
}

/// A node coded as one transform: its figures and its leaf. The leaf is coded
/// empty when it is, or when that is no dearer; a split flag is paid for where
/// a split was possible.
pub open spec fn whole_node(
    env: VarTxEnv,
    ev: LeafEvent,
    row: int,
    col: int,
    tx_size: int,
    depth: int,
    context: int,
) -> (NodeModel, LeafModel) {
    match ev.leaf {
        None => (
            NodeModel::invalid(),
            LeafModel {
                blk_row: row,
                blk_col: col,
                tx_size,
                tx_type: 0,
                eob: 0,
                txb_ctx: 0,
                skip_txfm: false,
                qcoeff: no_coeffs(tx_size),
                dqcoeff: no_coeffs(tx_size),
            },
        ),
        Some(l) => {
            let m = env.rdmult as int;
            let empty = !env.lossless && (l.skip_txfm || cost_of(m, l.rate as int, l.dist as int)
                >= cost_of(m, ev.zero_blk_rate as int, l.sse as int));
            let rate = if empty {
                ev.zero_blk_rate as int
            } else {
                l.rate as int
            };
            let flag = if tx_size > 0 && depth < MAX_VARTX_DEPTH {
                env.txfm_partition_cost[context][0] as int
            } else {
                0
            };
            (
                NodeModel {
                    rate: min_int(rate + flag, i32::MAX as int),
                    dist: if empty {
                        l.sse as int
                    } else {
                        l.dist as int
                    },
                    sse: l.sse as int,
                    skip_txfm: empty,
                },
                LeafModel {
                    blk_row: row,
                    blk_col: col,
                    tx_size,
                    tx_type: if empty {
                        0
                    } else {
                        l.best_tx_type
                    },
                    eob: if empty {
                        0
                    } else {
                        l.best_eob
                    },
                    txb_ctx: if empty {
                        0
                    } else {
                        l.best_txb_ctx
                    },
                    skip_txfm: empty,
                    qcoeff: if empty {
                        no_coeffs(tx_size)
                    } else {
                        l.qcoeff@
                    },
                    dqcoeff: if empty {
                        no_coeffs(tx_size)
                    } else {
                        l.dqcoeff@
                    },
                },
            )
        },
    }
}

fn zero_coeffs(tx_size: usize) -> (r: Vec<i32>)
    requires
        tx_size < 19,
    ensures
        r@ == no_coeffs(tx_size as int),
{
    let mut r: Vec<i32> = Vec::new();
    assert(TXS_W[tx_size as int] * TXS_H[tx_size as int] <= 4096) by (nonlinear_arith)
        requires
            TXS_W[tx_size as int] <= 64,
            TXS_H[tx_size as int] <= 64,
    ;
    let n: usize = TXS_W[tx_size] * TXS_H[tx_size];
    for i in 0..n
        invariant
            r@ =~= Seq::new(i as nat, |i: int| 0i32),
    {
        r.push(0);
    }
    r
}

/// Weigh coding a node as one transform.
fn try_tx_block_no_split(
    env: &VarTxEnv<'_>,
    ev: &LeafEvent,
    blk_row: usize,
    blk_col: usize,
    tx_size: usize,
    depth: i32,
    txfm_partition_ctx: usize,
) -> (r: (NodeStats, i64, VarTxLeaf))
    requires
        env.valid(),
        ev.valid(),
        tx_size < 19,
        txfm_partition_ctx < 21,
    ensures
        ({
            let w = whole_node(
                *env,
                *ev,
                blk_row as int,
                blk_col as int,
                tx_size as int,
                depth as int,
                txfm_partition_ctx as int,
            );
            &&& r.0.model() == w.0
            &&& r.1 == w.0.cost(env.rdmult as int)
            &&& r.2.model() == w.1
            &&& r.2.blk_row == blk_row
            &&& r.2.blk_col == blk_col
            &&& r.2.tx_size == tx_size
        }),
        r.1 < i64::MAX ==> r.0.within(MAX_LEAF_DIST as int) && r.0.rate < i32::MAX,
{
    match &ev.leaf {
        None => (
            NodeStats::invalid(),
            i64::MAX,
            VarTxLeaf {
                blk_row,
                blk_col,
                tx_size,
                tx_type: 0,
                eob: 0,
                txb_ctx: 0,
                skip_txfm: false,
                qcoeff: zero_coeffs(tx_size),
                dqcoeff: zero_coeffs(tx_size),
            },
        ),
        Some(l) => {
            let empty = !env.lossless && (l.skip_txfm || rd_of(env.rdmult, l.rate, l.dist) >= rd_of(
                env.rdmult,
                ev.zero_blk_rate,
                l.sse,
            ));
            let base_rate: i32 = if empty { ev.zero_blk_rate } else { l.rate };
            let flag: i32 = if tx_size > 0 && depth < MAX_VARTX_DEPTH {
                env.txfm_partition_cost[txfm_partition_ctx][0]
            } else {
                0
            };
            assert(0 <= env.txfm_partition_cost[txfm_partition_ctx as int][0]);
            let sum: i64 = base_rate as i64 + flag as i64;
            let rate: i32 = if sum < i32::MAX as i64 { sum as i32 } else { i32::MAX };
            let dist: i64 = if empty { l.sse } else { l.dist };
            let rd: i64 = rd_of(env.rdmult, rate, dist);
            let stats = NodeStats { rate, dist, sse: l.sse, skip_txfm: empty };
            let leaf = if empty {
                VarTxLeaf {
                    blk_row,
                    blk_col,
                    tx_size,
                    tx_type: 0,
                    eob: 0,
                    txb_ctx: 0,
                    skip_txfm: true,
                    qcoeff: zero_coeffs(tx_size),
                    dqcoeff: zero_coeffs(tx_size),
                }
            } else {
                VarTxLeaf {
                    blk_row,
                    blk_col,
                    tx_size,
                    tx_type: l.best_tx_type,
                    eob: l.best_eob,
                    txb_ctx: l.best_txb_ctx,
                    skip_txfm: false,
                    qcoeff: copy_coeffs(&l.qcoeff),
                    dqcoeff: copy_coeffs(&l.dqcoeff),
                }
            };
            (stats, rd, leaf)
        },
    }
}

/// Contexts along the upper and the left edge of the block, and how much of
/// the tape has been read.
pub struct TreeContext {
    pub above: Seq<i8>,
    pub left: Seq<i8>,
    pub tx_above: Seq<u8>,
    pub tx_left: Seq<u8>,
    pub pos: int,
}

/// `s` with `v` over the `n` positions from `from` on.
pub open spec fn set_range<T>(s: Seq<T>, from: int, n: int, v: T) -> Seq<T> {
    Seq::new(
        s.len(),
        |i: int|
            if from <= i < from + n {
                v
            } else {
                s[i]
            },
    )
}

impl TreeContext {
    /// After a leaf has been coded: its entropy context and its dimensions lie
    /// along its edges.
    pub open spec fn stamped(self, leaf: LeafModel) -> TreeContext {
        let w = TX_SIZE_WIDE_UNIT[leaf.tx_size] as int;
        let h = TX_SIZE_HIGH_UNIT[leaf.tx_size] as int;
        TreeContext {
            above: set_range(self.above, leaf.blk_col, w, leaf.txb_ctx as i8),
            left: set_range(self.left, leaf.blk_row, h, leaf.txb_ctx as i8),
            tx_above: set_range(
                self.tx_above,
                leaf.blk_col,
                w,
                TXS_W[leaf.tx_size] as u8,
            ),
            tx_left: set_range(self.tx_left, leaf.blk_row, h, TXS_H[leaf.tx_size] as u8),
            pos: self.pos,
        }
    }
}

/// A leaf the tree needs the search of.
pub struct RequestModel {
    pub blk_row: int,
    pub blk_col: int,
    pub tx_size: int,
    pub depth: int,
    pub ref_best_rd: int,
    pub above: Seq<i8>,
    pub left: Seq<i8>,
}

/// A node that has been decided.
pub struct Decided {
    pub ctx: TreeContext,
    pub stats: NodeModel,
    /// Whether the node can be coded within its budget.
    pub valid: bool,
    pub leaves: Seq<LeafModel>,
}

/// Where the search of a node stands.
pub enum NodeOutcome {
    Need(RequestModel),
    Done(Decided),
}

/// Where the search of a split stands.
pub enum SplitOutcome {
    Need(RequestModel),
    /// The split exceeds its budget.
    Failed(TreeContext),
    Open { ctx: TreeContext, stats: NodeModel, leaves: Seq<LeafModel> },
}

/// Parts into which a transform splits, across and in all.
pub open spec fn parts_across(tx_size: int) -> int {
    if TX_SIZE_WIDE_UNIT[SUB_TX_SIZE_MAP[tx_size] as int] < TX_SIZE_WIDE_UNIT[tx_size] {
        2
    } else {
        1
    }
}

pub open spec fn part_count(tx_size: int) -> int {
    let down: int = if TX_SIZE_HIGH_UNIT[SUB_TX_SIZE_MAP[tx_size] as int]
        < TX_SIZE_HIGH_UNIT[tx_size] {
        2
    } else {
        1
    };
    if parts_across(tx_size) == 2 {
        2 * down
    } else {
        down
    }
}

/// The parts of a split tile the transform.
pub proof fn law_parts_tile(tx_size: int)
    requires
        0 < tx_size < 19,
    ensures
        ({
            let sub = SUB_TX_SIZE_MAP[tx_size] as int;
            let across = parts_across(tx_size);
            &&& sub < 19
            &&& across * TX_SIZE_WIDE_UNIT[sub] == TX_SIZE_WIDE_UNIT[tx_size]
            &&& (part_count(tx_size) / across) * TX_SIZE_HIGH_UNIT[sub]
                == TX_SIZE_HIGH_UNIT[tx_size]
            &&& 2 <= part_count(tx_size) <= 4
        }),
{
    let sub = SUB_TX_SIZE_MAP[tx_size] as int;
    let across = parts_across(tx_size);
    let down = part_count(tx_size) / across;
    let w = TX_SIZE_WIDE_UNIT[sub] as int;
    let h = TX_SIZE_HIGH_UNIT[sub] as int;
    assert(across == 1 || across == 2);
    assert(down == 1 || down == 2);
    assert((across == 1 ==> across * w == w) && (across == 2 ==> across * w == 2 * w))
        by (nonlinear_arith);
    assert((down == 1 ==> down * h == h) && (down == 2 ==> down * h == 2 * h))
        by (nonlinear_arith);
}

/// Whether the split of a node is tried: it must be possible, and not ruled
/// out by the cost of the node as a whole, by its emptiness or by the split
/// prediction.
pub open spec fn split_open(
    env: VarTxEnv,
    ev: LeafEvent,
    tx_size: int,
    depth: int,
    whole_rd: int,
    whole_eob: u16,
    prev_level_rd: int,
    ref_best_rd: int,
) -> bool {
    let level = env.adaptive_txb_search_level as int;
    &&& tx_size > 0
    &&& depth < MAX_VARTX_DEPTH
    &&& !(level > 0 && whole_rd != i64::MAX && whole_rd - whole_rd / pow2i(2 + level)
        > prev_level_rd)
    &&& !(env.txb_split_cap && whole_eob == 0)
    &&& !(env.bd == 8 && env.ml_tx_split_thresh >= 0 && !(ref_best_rd == i64::MAX && whole_rd
        == i64::MAX) && ev.split_score < -env.ml_tx_split_thresh)
}

pub open spec fn tree_fuel(depth: int) -> int {
    if depth < 3 {
        3 - depth
    } else {
        0
    }
}

/// The decision at a node: as one transform when that is cheaper than its
/// split, split otherwise; not at all when the budget is spent.
#[verifier::opaque]
pub open spec fn node_outcome(
    env: VarTxEnv,
    tape: Seq<LeafEvent>,
    ctx: TreeContext,
    row: int,
    col: int,
    tx_size: int,
    depth: int,
    prev_level_rd: int,
    ref_best_rd: int,
) -> NodeOutcome
    decreases tree_fuel(depth), 100int,
{
    let fail = |c: TreeContext, s: NodeModel|
        NodeOutcome::Done(Decided { ctx: c, stats: s, valid: false, leaves: Seq::empty() });
    if ref_best_rd < 0 {
        fail(ctx, NodeModel::none())
    } else if ctx.pos >= tape.len() {
        NodeOutcome::Need(
            RequestModel {
                blk_row: row,
                blk_col: col,
                tx_size,
                depth,
                ref_best_rd,
                above: ctx.above,
                left: ctx.left,
            },
        )
    } else {
        let ev = tape[ctx.pos];
        let ctx1 = TreeContext { pos: ctx.pos + 1, ..ctx };
        let context = split_context(ctx.tx_above[col], ctx.tx_left[row], env.bsize as int, tx_size);
        let (stats, leaf) = whole_node(env, ev, row, col, tx_size, depth, context);
        let rd = stats.cost(env.rdmult as int);
        let level = env.adaptive_txb_search_level as int;
        if level > 0 && rd != i64::MAX && rd - rd / pow2i(1 + level) > ref_best_rd {
            fail(ctx1, NodeModel::none())
        } else {
            let split = if split_open(
                env,
                ev,
                tx_size,
                depth,
                rd,
                leaf.eob,
                prev_level_rd,
                ref_best_rd,
            ) {
                split_outcome(
                    env,
                    tape,
                    ctx1,
                    row,
                    col,
                    tx_size,
                    depth,
                    context,
                    rd,
                    min_int(rd, ref_best_rd),
                    part_count(tx_size),
                )
            } else {
                SplitOutcome::Failed(ctx1)
            };
            match split {
                SplitOutcome::Need(r) => NodeOutcome::Need(r),
                SplitOutcome::Failed(c) => if rd < i64::MAX {
                    NodeOutcome::Done(
                        Decided {
                            ctx: c.stamped(leaf),
                            stats,
                            valid: true,
                            leaves: seq![leaf],
                        },
                    )
                } else {
                    fail(c, NodeModel::invalid())
                },
                SplitOutcome::Open { ctx: c, stats: s, leaves } => if rd < s.cost(
                    env.rdmult as int,
                ) {
                    NodeOutcome::Done(
                        Decided {
                            ctx: c.stamped(leaf),
                            stats,
                            valid: true,
                            leaves: seq![leaf],
                        },
                    )
                } else if s.rate == i32::MAX {
                    fail(c, s)
                } else {
                    NodeOutcome::Done(Decided { ctx: c, stats: s, valid: true, leaves })
                },
            }
        }
    }
}

/// The split of a node after its first `k` parts in raster order. Parts
/// outside the frame are left out; the split fails as soon as a part cannot be
/// coded within what is left of the budget.
pub open spec fn split_outcome(
    env: VarTxEnv,
    tape: Seq<LeafEvent>,
    ctx: TreeContext,
    row: int,
    col: int,
    tx_size: int,
    depth: int,
    context: int,
    whole_rd: int,
    ref_best_rd: int,
    k: int,
) -> SplitOutcome
    decreases tree_fuel(depth), 50 + k,
{
    if k <= 0 {
        SplitOutcome::Open {
            ctx,
            stats: NodeModel {
                rate: env.txfm_partition_cost[context][1] as int,
                dist: 0,
                sse: 0,
                skip_txfm: true,
            },
            leaves: Seq::empty(),
        }
    } else if depth >= 3 {
        SplitOutcome::Failed(ctx)
    } else {
        match split_outcome(
            env,
            tape,
            ctx,
            row,
            col,
            tx_size,
            depth,
            context,
            whole_rd,
            ref_best_rd,
            k - 1,
        ) {
            SplitOutcome::Open { ctx: c, stats, leaves } => part_outcome(
                env,
                tape,
                c,
                stats,
                leaves,
                row,
                col,
                tx_size,
                depth,
                whole_rd,
                ref_best_rd,
                k - 1,
            ),
            other => other,
        }
    }
}

/// A split that stood at `stats` and `leaves`, after part `i` has been added.
pub open spec fn part_outcome(
    env: VarTxEnv,
    tape: Seq<LeafEvent>,
    ctx: TreeContext,
    stats: NodeModel,
    leaves: Seq<LeafModel>,
    row: int,
    col: int,
    tx_size: int,
    depth: int,
    whole_rd: int,
    ref_best_rd: int,
    i: int,
) -> SplitOutcome
    decreases tree_fuel(depth), 20int,
{
    let sub = SUB_TX_SIZE_MAP[tx_size] as int;
    let r = row + (i / parts_across(tx_size)) * TX_SIZE_HIGH_UNIT[sub];
    let q = col + (i % parts_across(tx_size)) * TX_SIZE_WIDE_UNIT[sub];
    if depth >= 3 {
        SplitOutcome::Failed(ctx)
    } else if r >= env.max_blocks_high || q >= env.max_blocks_wide {
        SplitOutcome::Open { ctx, stats, leaves }
    } else {
        let child = node_outcome(
            env,
            tape,
            ctx,
            r,
            q,
            sub,
            depth + 1,
            if whole_rd == i64::MAX {
                i64::MAX as int
            } else {
                trunc_div(whole_rd, part_count(tx_size))
            },
            if ref_best_rd == i64::MAX {
                i64::MAX as int
            } else {
                ref_best_rd - stats.cost(env.rdmult as int)
            },
        );
        match child {
            NodeOutcome::Need(request) => SplitOutcome::Need(request),
            NodeOutcome::Done(d) => {
                let m = stats.merged(d.stats);
                if !d.valid || m.cost(env.rdmult as int) > ref_best_rd {
                    SplitOutcome::Failed(d.ctx)
                } else {
                    SplitOutcome::Open { ctx: d.ctx, stats: m, leaves: leaves + d.leaves }
                }
            },
        }
    }
}

/// A split that has failed, or that waits for a leaf, stays that way whatever
/// parts follow.
proof fn lemma_split_sticky(
    env: VarTxEnv,
    tape: Seq<LeafEvent>,
    ctx: TreeContext,
    row: int,
    col: int,
    tx_size: int,
    depth: int,
    context: int,
    whole_rd: int,
    ref_best_rd: int,
    k: int,
    n: int,
)
    requires
        1 <= k <= n,
        depth < 3,
        !(split_outcome(
            env,
            tape,
            ctx,
            row,
            col,
            tx_size,
            depth,
            context,
            whole_rd,
            ref_best_rd,
            k,
        ) is Open),
    ensures
        split_outcome(
            env,
            tape,
            ctx,
            row,
            col,
            tx_size,
            depth,
            context,
            whole_rd,
            ref_best_rd,
            n,
        ) == split_outcome(
            env,
            tape,
            ctx,
            row,
            col,
            tx_size,
            depth,
            context,
            whole_rd,
            ref_best_rd,
            k,
        ),
    decreases n,
{
    if k < n {
        lemma_split_sticky(
            env,
            tape,
            ctx,
            row,
            col,
            tx_size,
            depth,
            context,
            whole_rd,
            ref_best_rd,
            k,
            n - 1,
        );
    }
}

/// A leaf the tree needs the search of: its position and size, its neighbour
/// contexts, and the cost it may spend.
pub struct LeafRequest {
    pub blk_row: usize,
    pub blk_col: usize,
    pub tx_size: usize,
    pub depth: i32,
    pub ref_best_rd: i64,
    pub above: Vec<i8>,
    pub left: Vec<i8>,
}

impl LeafRequest {
    pub open spec fn model(self) -> RequestModel {
        RequestModel {
            blk_row: self.blk_row as int,
            blk_col: self.blk_col as int,
            tx_size: self.tx_size as int,
            depth: self.depth as int,
            ref_best_rd: self.ref_best_rd as int,
            above: self.above@,
            left: self.left@,
        }
    }
}

/// A request whose cost may lie beyond 64 bits.
struct OpenRequest {
    blk_row: usize,
    blk_col: usize,
    tx_size: usize,
    depth: i32,
    ref_best_rd: i128,
    above: Vec<i8>,
    left: Vec<i8>,
}

impl OpenRequest {
    spec fn model(self) -> RequestModel {
        RequestModel {
            blk_row: self.blk_row as int,
            blk_col: self.blk_col as int,
            tx_size: self.tx_size as int,
            depth: self.depth as int,
            ref_best_rd: self.ref_best_rd as int,
            above: self.above@,
            left: self.left@,
        }
    }

    fn close(self) -> (r: LeafRequest)
        requires
            0 <= self.ref_best_rd <= i64::MAX,
        ensures
            r.model() == self.model(),
    {
        LeafRequest {
            blk_row: self.blk_row,
            blk_col: self.blk_col,
            tx_size: self.tx_size,
            depth: self.depth,
            ref_best_rd: self.ref_best_rd as i64,
            above: self.above,
            left: self.left,
        }
    }
}

struct TreeState {
    above: Vec<i8>,
    left: Vec<i8>,
    tx_above: Vec<u8>,
    tx_left: Vec<u8>,
    pos: usize,
}

impl TreeState {
    spec fn model(self) -> TreeContext {
        TreeContext {
            above: self.above@,
            left: self.left@,
            tx_above: self.tx_above@,
            tx_left: self.tx_left@,
            pos: self.pos as int,
        }
    }

    spec fn sized(self, env: VarTxEnv) -> bool {
        &&& self.above.len() == MI_SIZE_WIDE_B[env.bsize as int]
        &&& self.left.len() == MI_SIZE_HIGH_B[env.bsize as int]
        &&& self.tx_above.len() == MI_SIZE_WIDE_B[env.bsize as int]
        &&& self.tx_left.len() == MI_SIZE_HIGH_B[env.bsize as int]
    }

    fn stamp(&mut self, leaf: &VarTxLeaf, Ghost(env): Ghost<VarTxEnv>)
        requires
            old(self).sized(env),
            env.bsize < 22,
            leaf.tx_size < 19,
            leaf.blk_row <= 32,
            leaf.blk_col <= 32,
        ensures
            final(self).sized(env),
            final(self).model() == old(self).model().stamped(leaf.model()),
    {
        let w: usize = TX_SIZE_WIDE_UNIT[leaf.tx_size];
        let h: usize = TX_SIZE_HIGH_UNIT[leaf.tx_size];
        let ghost before = self.model();
        fill_range(&mut self.above, leaf.blk_col, w, leaf.txb_ctx as i8);
        fill_range(&mut self.left, leaf.blk_row, h, leaf.txb_ctx as i8);
        fill_range(&mut self.tx_above, leaf.blk_col, w, TXS_W[leaf.tx_size] as u8);
        fill_range(&mut self.tx_left, leaf.blk_row, h, TXS_H[leaf.tx_size] as u8);
        proof {
            let after = before.stamped(leaf.model());
            assert(self.above@ =~= after.above);
            assert(self.left@ =~= after.left);
            assert(self.tx_above@ =~= after.tx_above);
            assert(self.tx_left@ =~= after.tx_left);
        }
    }
}

fn fill_range<T: Copy>(v: &mut Vec<T>, from: usize, n: usize, value: T)
    requires
        from + n <= usize::MAX,
    ensures
        final(v)@ == set_range(old(v)@, from as int, n as int, value),
{
    let end: usize = if from + n < v.len() { from + n } else { v.len() };
    let mut i: usize = from;
    while i < end
        invariant
            from <= i,
            i <= end || from > end,
            end <= from + n,
            end <= v.len(),
            from + n <= usize::MAX,
            v.len() == old(v).len(),
            forall|j: int|
                0 <= j < v.len() ==> #[trigger] v[j] == if from <= j < i {
                    value
                } else {
                    old(v)[j]
                },
        decreases end - i,
    {
        v.set(i, value);
        i = i + 1;
    }
    assert(v@ =~= set_range(old(v)@, from as int, n as int, value));
}

fn copy_vec(v: &Vec<i8>) -> (r: Vec<i8>)
    ensures
        r@ == v@,
{
    let mut r: Vec<i8> = Vec::new();
    for i in 0..v.len()
        invariant
            r@ == v@.subrange(0, i as int),
    {
        r.push(v[i]);
    }
    assert(v@.subrange(0, v@.len() as int) == v@);
    r
}

/// Bound on the figures of a node at a depth.
spec fn node_bound(depth: int) -> int
    decreases 3 - depth,
{
    if depth >= 2 {
        MAX_LEAF_DIST as int
    } else {
        4 * node_bound(depth + 1)
    }
}

proof fn lemma_node_bound(depth: int)
    requires
        0 <= depth,
    ensures
        MAX_LEAF_DIST <= node_bound(depth) <= 16 * MAX_LEAF_DIST,
        depth < 2 ==> node_bound(depth) == 4 * node_bound(depth + 1),
{
    reveal_with_fuel(node_bound, 3);
}

/// A budget that a node at a depth can have in a tree whose largest transforms
/// have at most `limit`.
spec fn budget_ok(limit: int, ref_best_rd: int, depth: int) -> bool {
    &&& 0x1000_0000_0000_0000 <= limit <= 0xa000_0000_0000_0000
    &&& ref_best_rd == i64::MAX || ref_best_rd <= limit + depth * 0x1000_0000_0000_0000
}

/// A request that such a tree can make.
spec fn request_ok(limit: int, q: OpenRequest) -> bool {
    0 <= q.ref_best_rd && budget_ok(limit, q.ref_best_rd as int, 2)
}

/// As `far_above`, of a reference that may lie beyond 64 bits.
fn far_above_budget(best: i64, level: i32, reference: i128) -> (r: bool)
    requires
        level < 64,
        reference >= 0,
    ensures
        r == (level > 0 && best - best as int / pow2i(level as int) > reference),
{
    proof {
        if level > 0 {
            crate::arith::lemma_pow2i_pos(level as int);
            let p = pow2i(level as int);
            assert(best - best as int / p <= i64::MAX) by (nonlinear_arith)
                requires
                    p >= 1,
                    i64::MIN <= best <= i64::MAX,
            ;
        }
    }
    reference <= i64::MAX as i128 && far_above(best, level, reference as i64)
}

proof fn lemma_cost_bound(rdmult: i32, rate: int, dist: int)
    requires
        0 <= rate < i32::MAX,
        -0x10_0000_0000_0000 <= dist <= 0x10_0000_0000_0000,
    ensures
        -0x1000_0000_0000_0000 <= cost_of(rdmult as int, rate, dist) <= 0x1000_0000_0000_0000,
{
    assert(-0x4000_0000_0000_0000 <= rate * rdmult <= 0x4000_0000_0000_0000) by (nonlinear_arith)
        requires
            0 <= rate <= 0x7fff_ffff,
            -0x8000_0000 <= rdmult <= 0x7fff_ffff,
    ;
}

/// The leaf lies inside the block.
spec fn leaf_inside(env: VarTxEnv, l: VarTxLeaf) -> bool {
    &&& l.tx_size < 19
    &&& l.blk_row + TX_SIZE_HIGH_UNIT[l.tx_size as int] <= MI_SIZE_HIGH_B[env.bsize as int]
    &&& l.blk_col + TX_SIZE_WIDE_UNIT[l.tx_size as int] <= MI_SIZE_WIDE_B[env.bsize as int]
}

spec fn leaves_inside(env: VarTxEnv, s: Seq<VarTxLeaf>) -> bool {
    forall|i: int| 0 <= i < s.len() ==> leaf_inside(env, #[trigger] s[i])
}

/// A decided node.
struct NodeResult {
    stats: NodeStats,
    valid: bool,
    leaves: Vec<VarTxLeaf>,
}

fn append_leaves(a: &mut Vec<VarTxLeaf>, b: Vec<VarTxLeaf>)
    ensures
        final(a)@ == old(a)@ + b@,
{
    let mut b = b;
    a.append(&mut b);
}

/// Decide one node.
fn select_tx_block(
    env: &VarTxEnv<'_>,
    tape: &[LeafEvent],
    st: &mut TreeState,
    blk_row: usize,
    blk_col: usize,
    tx_size: usize,
    depth: i32,
    prev_level_rd: i64,
    ref_best_rd: i128,
    Ghost(limit): Ghost<int>,
) -> (r: Result<NodeResult, OpenRequest>)
    requires
        env.valid(),
        forall|i: int| 0 <= i < tape.len() ==> (#[trigger] tape[i]).valid(),
        old(st).sized(*env),
        tx_size < 19,
        env.bsize == 0 ==> tx_size == 0,
        blk_row + TX_SIZE_HIGH_UNIT[tx_size as int] <= MI_SIZE_HIGH_B[env.bsize as int],
        blk_col + TX_SIZE_WIDE_UNIT[tx_size as int] <= MI_SIZE_WIDE_B[env.bsize as int],
        0 <= depth <= 2,
        budget_ok(limit, ref_best_rd as int, depth as int),
    ensures
        match node_outcome(
            *env,
            tape@,
            old(st).model(),
            blk_row as int,
            blk_col as int,
            tx_size as int,
            depth as int,
            prev_level_rd as int,
            ref_best_rd as int,
        ) {
            NodeOutcome::Need(q) => r matches Err(e) && e.model() == q && request_ok(limit, e),
            NodeOutcome::Done(d) => r matches Ok(n) && leaves_inside(*env, n.leaves@)
                && n.stats.model() == d.stats && n.valid == d.valid && leaf_models(n.leaves@)
                == d.leaves && final(st).model() == d.ctx
                && final(st).sized(*env) && (n.valid ==> n.stats.within(node_bound(depth as int))
                && n.stats.rate < i32::MAX),
        },
    decreases tree_fuel(depth as int), 100int,
{
    reveal(node_outcome);
    if ref_best_rd < 0 {
        let leaves: Vec<VarTxLeaf> = Vec::new();
        assert(leaf_models(leaves@) =~= Seq::empty());
        return Ok(NodeResult { stats: NodeStats::none(), valid: false, leaves });
    }
    if st.pos >= tape.len() {
        return Err(
            OpenRequest {
                blk_row,
                blk_col,
                tx_size,
                depth,
                ref_best_rd,
                above: copy_vec(&st.above),
                left: copy_vec(&st.left),
            },
        );
    }
    let ghost ctx0 = st.model();
    let ev = &tape[st.pos];
    st.pos = st.pos + 1;
    let context: usize = txfm_partition_context(
        st.tx_above[blk_col],
        st.tx_left[blk_row],
        env.bsize,
        tx_size,
    );
    let (stats, rd, leaf) = try_tx_block_no_split(
        env,
        ev,
        blk_row,
        blk_col,
        tx_size,
        depth,
        context,
    );
    proof {
        lemma_node_bound(depth as int);
        if rd < i64::MAX {
            lemma_cost_bound(env.rdmult, stats.rate as int, stats.dist as int);
        }
    }
    let level: i32 = env.adaptive_txb_search_level;
    if level > 0 && rd != i64::MAX && far_above_budget(rd, 1 + level, ref_best_rd) {
        let leaves: Vec<VarTxLeaf> = Vec::new();
        assert(leaf_models(leaves@) =~= Seq::empty());
        return Ok(NodeResult { stats: NodeStats::none(), valid: false, leaves });
    }
    let try_split = tx_size > 0 && depth < MAX_VARTX_DEPTH && !(level > 0 && rd != i64::MAX
        && far_above(rd, 2 + level, prev_level_rd)) && !(env.txb_split_cap && leaf.eob == 0)
        && !(env.bd == 8 && env.ml_tx_split_thresh >= 0 && !(ref_best_rd == i64::MAX as i128 && rd
        == i64::MAX) && ev.split_score < -env.ml_tx_split_thresh);
    let mut split: Option<OpenSplit> = None;
    if try_split {
        let budget: i128 = if (rd as i128) < ref_best_rd { rd as i128 } else { ref_best_rd };
        split = match try_tx_block_split(
            env,
            tape,
            st,
            blk_row,
            blk_col,
            tx_size,
            depth,
            context,
            rd,
            budget,
            Ghost(limit),
        ) {
            Err(request) => {
                return Err(request);
            },
            Ok(s) => s,
        };
    }
    let split_rd: i64 = match &split {
        Some(s) => rd_of(env.rdmult, s.stats.rate, s.stats.dist),
        None => i64::MAX,
    };
    if rd < split_rd {
        st.stamp(&leaf, Ghost(*env));
        let ghost lm = leaf.model();
        let mut leaves: Vec<VarTxLeaf> = Vec::new();
        leaves.push(leaf);
        assert(leaf_models(leaves@) =~= seq![lm]);
        return Ok(NodeResult { stats, valid: true, leaves });
    }
    match split {
        None => {
            let leaves: Vec<VarTxLeaf> = Vec::new();
            assert(leaf_models(leaves@) =~= Seq::empty());
            Ok(NodeResult { stats: NodeStats::invalid(), valid: false, leaves })
        },
        Some(s) => {
            if s.stats.rate == i32::MAX {
                let leaves: Vec<VarTxLeaf> = Vec::new();
                assert(leaf_models(leaves@) =~= Seq::empty());
                Ok(NodeResult { stats: s.stats, valid: false, leaves })
            } else {
                Ok(NodeResult { stats: s.stats, valid: true, leaves: s.leaves })
            }
        },
    }
}

/// A split in progress.
struct OpenSplit {
    stats: NodeStats,
    leaves: Vec<VarTxLeaf>,
}

/// Number of parts a transform splits into.
fn count_parts(tx_size: usize) -> (r: usize)
    requires
        0 < tx_size < 19,
    ensures
        r == part_count(tx_size as int),
        2 <= r <= 4,
{
    proof {
        law_parts_tile(tx_size as int);
    }
    let sub: usize = SUB_TX_SIZE_MAP[tx_size];
    let down: usize = if TX_SIZE_HIGH_UNIT[sub] < TX_SIZE_HIGH_UNIT[tx_size] { 2 } else { 1 };
    if TX_SIZE_WIDE_UNIT[sub] < TX_SIZE_WIDE_UNIT[tx_size] {
        2 * down
    } else {
        down
    }
}

/// Offset of part `i` of a split, down and across.
fn part_offset(tx_size: usize, i: usize) -> (r: (usize, usize))
    requires
        0 < tx_size < 19,
        i < part_count(tx_size as int),
    ensures
        ({
            let sub = SUB_TX_SIZE_MAP[tx_size as int] as int;
            &&& 0 <= sub < 19
            &&& r.0 == (i as int / parts_across(tx_size as int)) * TX_SIZE_HIGH_UNIT[sub]
            &&& r.1 == (i as int % parts_across(tx_size as int)) * TX_SIZE_WIDE_UNIT[sub]
            &&& r.0 + TX_SIZE_HIGH_UNIT[sub] <= TX_SIZE_HIGH_UNIT[tx_size as int]
            &&& r.1 + TX_SIZE_WIDE_UNIT[sub] <= TX_SIZE_WIDE_UNIT[tx_size as int]
        }),
{
    let sub: usize = SUB_TX_SIZE_MAP[tx_size];
    let sub_w: usize = TX_SIZE_WIDE_UNIT[sub];
    let sub_h: usize = TX_SIZE_HIGH_UNIT[sub];
    let across: usize = if sub_w < TX_SIZE_WIDE_UNIT[tx_size] { 2 } else { 1 };
    let ghost down: int = if sub_h < TX_SIZE_HIGH_UNIT[tx_size as int] {
        2
    } else {
        1
    };
    proof {
        law_parts_tile(tx_size as int);
        let a = i as int / across as int;
        let b = i as int % across as int;
        assert(a == 0 || a == 1 && down == 2);
        assert(b == 0 || b == 1 && across == 2);
        assert((a == 0 ==> a * sub_h == 0) && (a == 1 ==> a * sub_h == sub_h))
            by (nonlinear_arith);
        assert((b == 0 ==> b * sub_w == 0) && (b == 1 ==> b * sub_w == sub_w))
            by (nonlinear_arith);
        assert((across == 2 ==> across * sub_w == 2 * sub_w)) by (nonlinear_arith);
        assert(part_count(tx_size as int) / across as int == down);
        assert((down == 2 ==> down * sub_h == 2 * sub_h)) by (nonlinear_arith);
    }
    (i / across * sub_h, i % across * sub_w)
}

/// Add part `i` to a split; `None` when the split exceeds its budget.
#[verifier::spinoff_prover]
fn add_part(
    env: &VarTxEnv<'_>,
    tape: &[LeafEvent],
    st: &mut TreeState,
    split: OpenSplit,
    blk_row: usize,
    blk_col: usize,
    tx_size: usize,
    depth: i32,
    no_split_rd: i64,
    ref_best_rd: i128,
    i: usize,
    Ghost(bound): Ghost<int>,
    Ghost(limit): Ghost<int>,
) -> (r: Result<Option<OpenSplit>, OpenRequest>)
    requires
        env.valid(),
        forall|i: int| 0 <= i < tape.len() ==> (#[trigger] tape[i]).valid(),
        old(st).sized(*env),
        0 < tx_size < 19,
        env.bsize != 0,
        blk_row + TX_SIZE_HIGH_UNIT[tx_size as int] <= MI_SIZE_HIGH_B[env.bsize as int],
        blk_col + TX_SIZE_WIDE_UNIT[tx_size as int] <= MI_SIZE_WIDE_B[env.bsize as int],
        0 <= depth < 2,
        i < part_count(tx_size as int),
        no_split_rd > i64::MIN,
        ref_best_rd >= -0x1000_0000_0000_0000,
        budget_ok(limit, ref_best_rd as int, depth as int),
        0 <= bound <= 3 * node_bound(depth + 1),
        split.stats.rate < i32::MAX ==> split.stats.within(bound),
        0 <= split.stats.rate,
        split.stats.rate == i32::MAX ==> ref_best_rd >= i64::MAX,
        leaves_inside(*env, split.leaves@),
    ensures
        match part_outcome(
            *env,
            tape@,
            old(st).model(),
            split.stats.model(),
            leaf_models(split.leaves@),
            blk_row as int,
            blk_col as int,
            tx_size as int,
            depth as int,
            no_split_rd as int,
            ref_best_rd as int,
            i as int,
        ) {
            SplitOutcome::Need(q) => r matches Err(e) && e.model() == q && request_ok(limit, e),
            SplitOutcome::Failed(c) => r matches Ok(None) && final(st).model() == c
                && final(st).sized(*env),
            SplitOutcome::Open { ctx, stats, leaves } => r matches Ok(Some(s)) && leaves_inside(
                *env,
                s.leaves@,
            ) && s.stats.model() == stats && leaf_models(s.leaves@) == leaves && final(st).model() == ctx
                && final(st).sized(*env) && 0 <= s.stats.rate && (s.stats.rate < i32::MAX
                ==> s.stats.within(bound + node_bound(depth + 1))) && (s.stats.rate == i32::MAX
                ==> ref_best_rd >= i64::MAX),
        },
    decreases tree_fuel(depth as int), 20int,
{
    let sub: usize = SUB_TX_SIZE_MAP[tx_size];
    let count: usize = count_parts(tx_size);
    let (down, across) = part_offset(tx_size, i);
    let offsetr: usize = blk_row + down;
    let offsetc: usize = blk_col + across;
    proof {
        lemma_node_bound(depth + 1);
    }
    if offsetr >= env.max_blocks_high || offsetc >= env.max_blocks_wide {
        return Ok(Some(split));
    }
    let child_prev: i64 = if no_split_rd == i64::MAX {
        i64::MAX
    } else if no_split_rd < 0 {
        -((-no_split_rd) / count as i64)
    } else {
        no_split_rd / count as i64
    };
    let split_rd: i64 = rd_of(env.rdmult, split.stats.rate, split.stats.dist);
    proof {
        if split.stats.rate < i32::MAX {
            lemma_cost_bound(env.rdmult, split.stats.rate as int, split.stats.dist as int);
        }
    }
    let child_ref: i128 = if ref_best_rd == i64::MAX as i128 {
        i64::MAX as i128
    } else {
        ref_best_rd - split_rd as i128
    };
    assert(count == part_count(tx_size as int));
    assert(child_prev == if no_split_rd == i64::MAX {
        i64::MAX as int
    } else {
        trunc_div(no_split_rd as int, part_count(tx_size as int))
    });
    assert(child_ref == if ref_best_rd == i64::MAX {
        i64::MAX as int
    } else {
        ref_best_rd - split.stats.model().cost(env.rdmult as int)
    });
    assert(offsetr == blk_row + (i as int / parts_across(tx_size as int))
        * TX_SIZE_HIGH_UNIT[SUB_TX_SIZE_MAP[tx_size as int] as int]);
    let child = match select_tx_block(
        env,
        tape,
        st,
        offsetr,
        offsetc,
        sub,
        depth + 1,
        child_prev,
        child_ref,
        Ghost(limit),
    ) {
        Err(request) => {
            return Err(request);
        },
        Ok(n) => n,
    };
    if !child.valid {
        return Ok(None);
    }
    let merged = split.stats.merge(&child.stats, Ghost(bound), Ghost(node_bound(depth + 1)));
    if rd_of(env.rdmult, merged.rate, merged.dist) as i128 > ref_best_rd {
        return Ok(None);
    }
    let mut leaves = split.leaves;
    let ghost before = leaves@;
    let ghost added = child.leaves@;
    append_leaves(&mut leaves, child.leaves);
    assert(leaf_models(leaves@) =~= leaf_models(before) + leaf_models(added));
    Ok(Some(OpenSplit { stats: merged, leaves }))
}

/// Weigh splitting a node; `None` when the split exceeds its budget.
#[verifier::spinoff_prover]
fn try_tx_block_split(
    env: &VarTxEnv<'_>,
    tape: &[LeafEvent],
    st: &mut TreeState,
    blk_row: usize,
    blk_col: usize,
    tx_size: usize,
    depth: i32,
    txfm_partition_ctx: usize,
    no_split_rd: i64,
    ref_best_rd: i128,
    Ghost(limit): Ghost<int>,
) -> (r: Result<Option<OpenSplit>, OpenRequest>)
    requires
        env.valid(),
        forall|i: int| 0 <= i < tape.len() ==> (#[trigger] tape[i]).valid(),
        old(st).sized(*env),
        0 < tx_size < 19,
        env.bsize != 0,
        blk_row + TX_SIZE_HIGH_UNIT[tx_size as int] <= MI_SIZE_HIGH_B[env.bsize as int],
        blk_col + TX_SIZE_WIDE_UNIT[tx_size as int] <= MI_SIZE_WIDE_B[env.bsize as int],
        0 <= depth < 2,
        txfm_partition_ctx < 21,
        no_split_rd > i64::MIN,
        ref_best_rd >= -0x1000_0000_0000_0000,
        budget_ok(limit, ref_best_rd as int, depth as int),
    ensures
        match split_outcome(
            *env,
            tape@,
            old(st).model(),
            blk_row as int,
            blk_col as int,
            tx_size as int,
            depth as int,
            txfm_partition_ctx as int,
            no_split_rd as int,
            ref_best_rd as int,
            part_count(tx_size as int),
        ) {
            SplitOutcome::Need(q) => r matches Err(e) && e.model() == q && request_ok(limit, e),
            SplitOutcome::Failed(c) => r matches Ok(None) && final(st).model() == c
                && final(st).sized(*env),
            SplitOutcome::Open { ctx, stats, leaves } => r matches Ok(Some(s)) && leaves_inside(
                *env,
                s.leaves@,
            ) && s.stats.model() == stats && leaf_models(s.leaves@) == leaves && final(st).model() == ctx
                && final(st).sized(*env) && (s.stats.rate < i32::MAX ==> s.stats.within(
                node_bound(depth as int),
            )),
        },
    decreases tree_fuel(depth as int), 50int,
{
    let count: usize = count_parts(tx_size);
    assert(0 <= env.txfm_partition_cost[txfm_partition_ctx as int][1] < i32::MAX);
    let stats = NodeStats {
        rate: env.txfm_partition_cost[txfm_partition_ctx][1],
        dist: 0,
        sse: 0,
        skip_txfm: true,
    };
    let leaves: Vec<VarTxLeaf> = Vec::new();
    let ghost ctx0 = st.model();
    assert(leaf_models(leaves@) =~= Seq::empty());
    let mut split = OpenSplit { stats, leaves };
    proof {
        lemma_node_bound(depth as int);
        lemma_node_bound(depth + 1);
    }
    let ghost child_bound = node_bound(depth + 1);
    let ghost mut bound: int = 0;
    let mut i: usize = 0;
    while i < count
        invariant
            env.valid(),
            forall|i: int| 0 <= i < tape.len() ==> (#[trigger] tape[i]).valid(),
            st.sized(*env),
            0 < tx_size < 19,
            env.bsize != 0,
            blk_row + TX_SIZE_HIGH_UNIT[tx_size as int] <= MI_SIZE_HIGH_B[env.bsize as int],
            blk_col + TX_SIZE_WIDE_UNIT[tx_size as int] <= MI_SIZE_WIDE_B[env.bsize as int],
            0 <= depth < 2,
            i <= count <= 4,
            count == part_count(tx_size as int),
            ctx0 == old(st).model(),
            leaves_inside(*env, split.leaves@),
            no_split_rd > i64::MIN,
            ref_best_rd >= -0x1000_0000_0000_0000,
            budget_ok(limit, ref_best_rd as int, depth as int),
            child_bound == node_bound(depth + 1),
            child_bound >= 0,
            i == 0 ==> bound == 0,
            i == 1 ==> bound == child_bound,
            i == 2 ==> bound == 2 * child_bound,
            i == 3 ==> bound == 3 * child_bound,
            i == 4 ==> bound == 4 * child_bound,
            split.stats.rate < i32::MAX ==> split.stats.within(bound),
            0 <= split.stats.rate,
            split.stats.rate == i32::MAX ==> ref_best_rd >= i64::MAX,
            (SplitOutcome::Open {
                ctx: st.model(),
                stats: split.stats.model(),
                leaves: leaf_models(split.leaves@),
            }) == split_outcome(
                *env,
                tape@,
                ctx0,
                blk_row as int,
                blk_col as int,
                tx_size as int,
                depth as int,
                txfm_partition_ctx as int,
                no_split_rd as int,
                ref_best_rd as int,
                i as int,
            ),
        ensures
            i == count,
        decreases count - i,
    {
        let step = add_part(
            env,
            tape,
            st,
            split,
            blk_row,
            blk_col,
            tx_size,
            depth,
            no_split_rd,
            ref_best_rd,
            i,
            Ghost(bound),
            Ghost(limit),
        );
        i = i + 1;
        match step {
            Ok(Some(s)) => {
                split = s;
                proof {
                    bound = bound + child_bound;
                }
            },
            other => {
                proof {
                    lemma_split_sticky(
                        *env,
                        tape@,
                        ctx0,
                        blk_row as int,
                        blk_col as int,
                        tx_size as int,
                        depth as int,
                        txfm_partition_ctx as int,
                        no_split_rd as int,
                        ref_best_rd as int,
                        i as int,
                        count as int,
                    );
                }
                return other;
            },
        }
    }
    Ok(Some(split))
}

/// Ceiling of `n / d`.
pub open spec fn units(n: int, d: int) -> int {
    (n + d - 1) / d
}

/// The largest transforms of a block: how many lie across its visible part,
/// and how many there are in all.
pub open spec fn roots_across(env: VarTxEnv) -> int {
    units(
        env.max_blocks_wide as int,
        TX_SIZE_WIDE_UNIT[MAX_TXSIZE_RECT_LOOKUP[env.bsize as int] as int] as int,
    )
}

pub open spec fn root_count(env: VarTxEnv) -> int {
    roots_across(env) * units(
        env.max_blocks_high as int,
        TX_SIZE_HIGH_UNIT[MAX_TXSIZE_RECT_LOOKUP[env.bsize as int] as int] as int,
    )
}

/// Where the search of a block stands.
pub enum TreeProgress {
    Need(RequestModel),
    /// The block cannot be coded within its budget.
    Invalid,
    Open { ctx: TreeContext, stats: NodeModel, leaves: Seq<LeafModel> },
}

/// Cost of signalling the block as empty.
pub open spec fn empty_rd(env: VarTxEnv, s: NodeModel) -> int {
    rd_value(env.rdmult as int, env.skip_txfm_cost[1] as int, s.sse)
}

/// Cost of coding the block with these figures.
pub open spec fn coded_rd(env: VarTxEnv, s: NodeModel) -> int {
    rd_value(
        env.rdmult as int,
        min_int(s.rate + env.skip_txfm_cost[0], i32::MAX as int),
        s.dist,
    )
}

/// The block after its first `k` largest transforms, in raster order.
pub open spec fn tree_progress(
    env: VarTxEnv,
    tape: Seq<LeafEvent>,
    ref_best_rd: int,
    k: int,
) -> TreeProgress
    decreases k,
{
    let w = MI_SIZE_WIDE_B[env.bsize as int] as int;
    let h = MI_SIZE_HIGH_B[env.bsize as int] as int;
    let tx = MAX_TXSIZE_RECT_LOOKUP[env.bsize as int] as int;
    if k <= 0 {
        TreeProgress::Open {
            ctx: TreeContext {
                above: env.above_ctx@.subrange(0, w),
                left: env.left_ctx@.subrange(0, h),
                tx_above: env.tx_above@.subrange(0, w),
                tx_left: env.tx_left@.subrange(0, h),
                pos: 0,
            },
            stats: NodeModel::none(),
            leaves: Seq::empty(),
        }
    } else {
        match tree_progress(env, tape, ref_best_rd, k - 1) {
            TreeProgress::Open { ctx, stats, leaves } => {
                let node = node_outcome(
                    env,
                    tape,
                    ctx,
                    ((k - 1) / roots_across(env)) * TX_SIZE_HIGH_UNIT[tx],
                    ((k - 1) % roots_across(env)) * TX_SIZE_WIDE_UNIT[tx],
                    tx,
                    env.init_depth as int,
                    i64::MAX as int,
                    if ref_best_rd == i64::MAX {
                        i64::MAX as int
                    } else {
                        ref_best_rd - min_int(empty_rd(env, stats), coded_rd(env, stats))
                    },
                );
                match node {
                    NodeOutcome::Need(r) => TreeProgress::Need(r),
                    NodeOutcome::Done(d) => {
                        let m = stats.merged(d.stats);
                        if !d.valid || m.rate == i32::MAX {
                            TreeProgress::Invalid
                        } else {
                            TreeProgress::Open {
                                ctx: d.ctx,
                                stats: m,
                                leaves: leaves + d.leaves,
                            }
                        }
                    },
                }
            },
            other => other,
        }
    }
}

/// The leaf lies over the record with index `j`.
pub open spec fn leaf_covers(bsize: int, l: LeafModel, j: int) -> bool {
    exists|dy: int, dx: int|
        0 <= dy < TX_SIZE_HIGH_UNIT[l.tx_size] && 0 <= dx < TX_SIZE_WIDE_UNIT[l.tx_size]
            && #[trigger] size_index(bsize, l.blk_row + dy, l.blk_col + dx) == j
}

/// The transform size recorded at index `j`: that of the last leaf over it,
/// or `largest` where there is none.
pub open spec fn recorded_size(bsize: int, leaves: Seq<LeafModel>, j: int, largest: int) -> int
    decreases leaves.len(),
{
    if leaves.len() == 0 {
        largest
    } else if leaf_covers(bsize, leaves.last(), j) {
        leaves.last().tx_size
    } else {
        recorded_size(bsize, leaves.drop_last(), j, largest)
    }
}

/// The outcome of a block's transform search.
pub struct VarTxResult {
    pub valid: bool,
    pub rate: i32,
    pub dist: i64,
    pub sse: i64,
    pub skip_txfm: bool,
    /// The transform size of each record of the block.
    pub inter_tx_size: [usize; 16],
    /// The transform size at the block's top-left corner.
    pub tx_size: usize,
    pub leaves: Vec<VarTxLeaf>,
}

impl VarTxResult {
    /// The result of a block that cannot be coded within its budget.
    pub open spec fn is_invalid(self) -> bool {
        &&& !self.valid
        &&& self.rate == i32::MAX
        &&& self.dist == i64::MAX
        &&& self.sse == i64::MAX
        &&& !self.skip_txfm
        &&& self.tx_size == 0
        &&& self.leaves@.len() == 0
        &&& forall|j: int| 0 <= j < 16 ==> self.inter_tx_size[j] == 0
    }

    /// The result of a block with these figures and leaves: it is signalled
    /// as empty when that is no dearer.
    pub open spec fn reports(self, env: VarTxEnv, s: NodeModel, leaves: Seq<LeafModel>) -> bool {
        &&& self.valid
        &&& self.rate == s.rate
        &&& self.dist == s.dist
        &&& self.sse == s.sse
        &&& self.skip_txfm == (empty_rd(env, s) <= coded_rd(env, s))
        &&& leaf_models(self.leaves@) == leaves
        &&& self.tx_size == self.inter_tx_size[0]
        &&& forall|j: int|
            0 <= j < 16 ==> #[trigger] self.inter_tx_size[j] == recorded_size(
                env.bsize as int,
                leaves,
                j,
                MAX_TXSIZE_RECT_LOOKUP[env.bsize as int] as int,
            )
    }

    fn invalid() -> (r: Self)
        ensures
            r.is_invalid(),
    {
        VarTxResult {
            valid: false,
            rate: i32::MAX,
            dist: i64::MAX,
            sse: i64::MAX,
            skip_txfm: false,
            inter_tx_size: [0; 16],
            tx_size: 0,
            leaves: Vec::new(),
        }
    }
}

fn record_leaf(sizes: &mut [usize; 16], bsize: usize, leaf: &VarTxLeaf)
    requires
        bsize < 22,
        leaf.tx_size < 19,
        leaf.blk_row + TX_SIZE_HIGH_UNIT[leaf.tx_size as int] <= 32,
        leaf.blk_col + TX_SIZE_WIDE_UNIT[leaf.tx_size as int] <= 32,
    ensures
        forall|j: int|
            0 <= j < 16 ==> #[trigger] final(sizes)[j] == if leaf_covers(
                bsize as int,
                leaf.model(),
                j,
            ) {
                leaf.tx_size
            } else {
                old(sizes)[j]
            },
{
    let w: usize = TX_SIZE_WIDE_UNIT[leaf.tx_size];
    let h: usize = TX_SIZE_HIGH_UNIT[leaf.tx_size];
    let ghost l = leaf.model();
    for dy in 0..h
        invariant
            bsize < 22,
            leaf.tx_size < 19,
            leaf.blk_row + h <= 32,
            leaf.blk_col + w <= 32,
            l == leaf.model(),
            forall|j: int|
                0 <= j < 16 ==> #[trigger] sizes[j] == if exists|y: int, x: int|
                    0 <= y < dy && 0 <= x < w && #[trigger] size_index(
                        bsize as int,
                        l.blk_row + y,
                        l.blk_col + x,
                    ) == j {
                    leaf.tx_size
                } else {
                    old(sizes)[j]
                },
    {
        for dx in 0..w
            invariant
                bsize < 22,
                leaf.tx_size < 19,
                leaf.blk_row + h <= 32,
                leaf.blk_col + w <= 32,
                dy < h,
                l == leaf.model(),
                forall|j: int|
                    0 <= j < 16 ==> #[trigger] sizes[j] == if exists|y: int, x: int|
                        (0 <= y < dy && 0 <= x < w || y == dy && 0 <= x < dx)
                            && #[trigger] size_index(
                            bsize as int,
                            l.blk_row + y,
                            l.blk_col + x,
                        ) == j {
                        leaf.tx_size
                    } else {
                        old(sizes)[j]
                    },
        {
            let index: usize = get_txb_size_index(bsize, leaf.blk_row + dy, leaf.blk_col + dx);
            if index < 16 {
                sizes[index] = leaf.tx_size;
            }
            assert(size_index(bsize as int, l.blk_row + dy, l.blk_col + dx) == index);
        }
    }
}

/// One step of the search of a block.
pub enum VarTxStep {
    /// The search of this leaf is needed before the tree can go on.
    Need(LeafRequest),
    /// The search is done, with the cost of the block (`i64::MAX` when it is
    /// invalid).
    Done(i64, VarTxResult),
}

fn copy_slice<T: Copy>(s: &[T], n: usize) -> (r: Vec<T>)
    requires
        n <= s.len(),
    ensures
        r@ == s@.subrange(0, n as int),
{
    let mut r: Vec<T> = Vec::new();
    for i in 0..n
        invariant
            n <= s.len(),
            r@ == s@.subrange(0, i as int),
    {
        r.push(s[i]);
    }
    r
}

/// A block in progress.
struct OpenTree {
    st: TreeState,
    stats: NodeStats,
    leaves: Vec<VarTxLeaf>,
}

enum RootStep {
    Need(OpenRequest),
    Invalid,
    Open(OpenTree),
}

/// The most that a largest transform can have to spend, where it has a limit.
spec fn root_limit(ref_best_rd: int) -> int {
    if ref_best_rd == i64::MAX {
        0x1000_0000_0000_0000
    } else {
        max_int(ref_best_rd, 0) + 0x1000_0000_0000_0000
    }
}

/// Decide the largest transform at `(blk_row, blk_col)`.
fn add_root(
    env: &VarTxEnv<'_>,
    tape: &[LeafEvent],
    tree: OpenTree,
    blk_row: usize,
    blk_col: usize,
    ref_best_rd: i64,
    Ghost(k): Ghost<int>,
) -> (r: RootStep)
    requires
        env.valid(),
        forall|i: int| 0 <= i < tape.len() ==> (#[trigger] tape[i]).valid(),
        tree.st.sized(*env),
        0 <= k < 4,
        tree.stats.within(k * (16 * MAX_LEAF_DIST)),
        tree.stats.rate < i32::MAX,
        leaves_inside(*env, tree.leaves@),
        ({
            let tx = MAX_TXSIZE_RECT_LOOKUP[env.bsize as int] as int;
            &&& blk_row + TX_SIZE_HIGH_UNIT[tx] <= MI_SIZE_HIGH_B[env.bsize as int]
            &&& blk_col + TX_SIZE_WIDE_UNIT[tx] <= MI_SIZE_WIDE_B[env.bsize as int]
            &&& blk_row == (k / roots_across(*env)) * TX_SIZE_HIGH_UNIT[tx]
            &&& blk_col == (k % roots_across(*env)) * TX_SIZE_WIDE_UNIT[tx]
        }),
        tree_progress(*env, tape@, ref_best_rd as int, k) == (TreeProgress::Open {
            ctx: tree.st.model(),
            stats: tree.stats.model(),
            leaves: leaf_models(tree.leaves@),
        }),
    ensures
        match tree_progress(*env, tape@, ref_best_rd as int, k + 1) {
            TreeProgress::Need(q) => r matches RootStep::Need(e) && e.model() == q && request_ok(
                root_limit(ref_best_rd as int),
                e,
            ),
            TreeProgress::Invalid => r is Invalid,
            TreeProgress::Open { ctx, stats, leaves } => r matches RootStep::Open(t)
                && t.st.model() == ctx && t.st.sized(*env) && t.stats.model() == stats
                && leaf_models(t.leaves@) == leaves && leaves_inside(*env, t.leaves@)
                && t.stats.rate < i32::MAX && t.stats.within((k + 1) * (16 * MAX_LEAF_DIST)),
        },
{
    let mut tree = tree;
    let tx: usize = MAX_TXSIZE_RECT_LOOKUP[env.bsize];
    let ghost before = tree.leaves@;
    assert((k + 1) * (16 * MAX_LEAF_DIST) == k * (16 * MAX_LEAF_DIST) + 16 * MAX_LEAF_DIST)
        by (nonlinear_arith);
    assert(0 <= k * (16 * MAX_LEAF_DIST) <= 3 * (16 * MAX_LEAF_DIST)) by (nonlinear_arith)
        requires
            0 <= k <= 3,
            MAX_LEAF_DIST >= 0,
    ;
    let (empty, coded) = header_costs(env, &tree.stats);
    let cheaper: i64 = if empty < coded { empty } else { coded };
    let so_far: i128 = if ref_best_rd == i64::MAX {
        i64::MAX as i128
    } else {
        ref_best_rd as i128 - cheaper as i128
    };
    proof {
        lemma_node_bound(env.init_depth as int);
    }
    let node = match select_tx_block(
        env,
        tape,
        &mut tree.st,
        blk_row,
        blk_col,
        tx,
        env.init_depth,
        i64::MAX,
        so_far,
        Ghost(root_limit(ref_best_rd as int)),
    ) {
        Err(request) => {
            return RootStep::Need(request);
        },
        Ok(n) => n,
    };
    if !node.valid {
        return RootStep::Invalid;
    }
    let merged = tree.stats.merge(
        &node.stats,
        Ghost(k * (16 * MAX_LEAF_DIST)),
        Ghost(16 * MAX_LEAF_DIST),
    );
    if merged.rate == i32::MAX {
        return RootStep::Invalid;
    }
    let ghost added = node.leaves@;
    append_leaves(&mut tree.leaves, node.leaves);
    assert(leaf_models(tree.leaves@) =~= leaf_models(before) + leaf_models(added));
    tree.stats = merged;
    RootStep::Open(tree)
}

/// The costs of signalling the block as empty and of coding it.
fn header_costs(env: &VarTxEnv<'_>, s: &NodeStats) -> (r: (i64, i64))
    requires
        env.valid(),
        s.within(64 * MAX_LEAF_DIST),
    ensures
        r.0 == empty_rd(*env, s.model()),
        r.1 == coded_rd(*env, s.model()),
        -0x1000_0000_0000_0000 <= r.0 <= 0x1000_0000_0000_0000,
        -0x1000_0000_0000_0000 <= r.1 <= 0x1000_0000_0000_0000,
{
    let sum: i64 = s.rate as i64 + env.skip_txfm_cost[0] as i64;
    let rate: i32 = if sum < i32::MAX as i64 { sum as i32 } else { i32::MAX };
    proof {
        let m = env.rdmult as int;
        let a = env.skip_txfm_cost[1] as int;
        let b = rate as int;
        assert(-0x4000_0000_0000_0000 <= a * m <= 0x4000_0000_0000_0000) by (nonlinear_arith)
            requires
                0 <= a <= 0x7fff_ffff,
                -0x8000_0000 <= m <= 0x7fff_ffff,
        ;
        assert(-0x4000_0000_0000_0000 <= b * m <= 0x4000_0000_0000_0000) by (nonlinear_arith)
            requires
                0 <= b <= 0x7fff_ffff,
                -0x8000_0000 <= m <= 0x7fff_ffff,
        ;
    }
    (rdcost(env.rdmult, env.skip_txfm_cost[1], s.sse), rdcost(env.rdmult, rate, s.dist))
}

proof fn lemma_tree_sticky(
    env: VarTxEnv,
    tape: Seq<LeafEvent>,
    ref_best_rd: int,
    k: int,
    n: int,
)
    requires
        1 <= k <= n,
        !(tree_progress(env, tape, ref_best_rd, k) is Open),
    ensures
        tree_progress(env, tape, ref_best_rd, n) == tree_progress(env, tape, ref_best_rd, k),
    decreases n,
{
    if k < n {
        lemma_tree_sticky(env, tape, ref_best_rd, k, n - 1);
    }
}

/// Where the `k`-th largest transform of a block lies.
proof fn lemma_root_position(env: VarTxEnv, k: int)
    requires
        env.valid(),
        0 <= k < root_count(env),
    ensures
        root_count(env) <= 4,
        1 <= roots_across(env) <= 2,
        ({
            let tx = MAX_TXSIZE_RECT_LOOKUP[env.bsize as int] as int;
            let row = (k / roots_across(env)) * TX_SIZE_HIGH_UNIT[tx];
            let col = (k % roots_across(env)) * TX_SIZE_WIDE_UNIT[tx];
            &&& 0 <= row
            &&& 0 <= col
            &&& row + TX_SIZE_HIGH_UNIT[tx] <= MI_SIZE_HIGH_B[env.bsize as int]
            &&& col + TX_SIZE_WIDE_UNIT[tx] <= MI_SIZE_WIDE_B[env.bsize as int]
        }),
{
    let tx = MAX_TXSIZE_RECT_LOOKUP[env.bsize as int] as int;
    let uw = TX_SIZE_WIDE_UNIT[tx] as int;
    let uh = TX_SIZE_HIGH_UNIT[tx] as int;
    let fw = MI_SIZE_WIDE_B[env.bsize as int] as int;
    let fh = MI_SIZE_HIGH_B[env.bsize as int] as int;
    assert(fw == uw || fw == 2 * uw);
    assert(fh == uh || fh == 2 * uh);
    let a = roots_across(env);
    let b = units(env.max_blocks_high as int, uh);
    lemma_units(env.max_blocks_wide as int, uw, fw);
    lemma_units(env.max_blocks_high as int, uh, fh);
    assert(a == 0 ==> a * b == 0) by (nonlinear_arith);
    assert(b == 0 ==> a * b == 0) by (nonlinear_arith);
    assert((a == 1 ==> a * b == b) && (a == 2 ==> a * b == 2 * b)) by (nonlinear_arith);
    let i = k / a;
    let j = k % a;
    if a == 1 {
        assert(i == k / 1 && j == k % 1);
    } else {
        assert(a == 2 && i == k / 2 && j == k % 2);
    }
    assert(i == 0 || i == 1 && b == 2);
    assert(j == 0 || j == 1 && a == 2);
    assert((i == 0 ==> i * uh == 0) && (i == 1 ==> i * uh == uh)) by (nonlinear_arith);
    assert((j == 0 ==> j * uw == 0) && (j == 1 ==> j * uw == uw)) by (nonlinear_arith);
}

proof fn lemma_units(n: int, d: int, full: int)
    requires
        0 <= n <= full,
        1 <= d,
        full == d || full == 2 * d,
    ensures
        0 <= units(n, d) <= 2,
        units(n, d) == 2 ==> full == 2 * d,
{
    assert(0 <= (n + d - 1) / d <= 2 && ((n + d - 1) / d == 2 ==> full == 2 * d))
        by (nonlinear_arith)
        requires
            0 <= n <= full,
            1 <= d,
            full == d || full == 2 * d,
    ;
}

/// Bound on the costs that are subtracted from a reference on the way to a
/// leaf.
pub const MAX_TREE_COST: i64 = 0x3000_0000_0000_0000;

/// The cost that the next leaf may spend, the difference of the reference and
/// what has been spent, fits in 64 bits. A reference that is no closer than
/// `MAX_TREE_COST` to the largest number leaves room for every difference.
pub open spec fn budget_fits(env: VarTxEnv, tape: Seq<LeafEvent>, ref_best_rd: int) -> bool {
    ||| ref_best_rd == i64::MAX
    ||| ref_best_rd <= i64::MAX - MAX_TREE_COST
    ||| (tree_progress(env, tape, ref_best_rd, root_count(env)) matches TreeProgress::Need(q)
        ==> q.ref_best_rd <= i64::MAX)
}

/// Search the transform tree of a block over the leaves searched so far.
pub fn select_tx_size_and_type(
    env: &VarTxEnv<'_>,
    tape: &[LeafEvent],
    ref_best_rd: i64,
) -> (r: VarTxStep)
    requires
        env.valid(),
        forall|i: int| 0 <= i < tape.len() ==> (#[trigger] tape[i]).valid(),
        budget_fits(*env, tape@, ref_best_rd as int),
    ensures
        ref_best_rd == 0 ==> (r matches VarTxStep::Done(rd, res) && rd == i64::MAX
            && res.is_invalid()),
        ref_best_rd != 0 ==> match tree_progress(
            *env,
            tape@,
            ref_best_rd as int,
            root_count(*env),
        ) {
            TreeProgress::Need(q) => r matches VarTxStep::Need(e) && e.model() == q,
            TreeProgress::Invalid => r matches VarTxStep::Done(rd, res) && rd == i64::MAX
                && res.is_invalid(),
            TreeProgress::Open { ctx, stats, leaves } => r matches VarTxStep::Done(rd, res)
                && rd == min_int(empty_rd(*env, stats), coded_rd(*env, stats)) && rd < i64::MAX
                && res.reports(*env, stats, leaves),
        },
{
    if ref_best_rd == 0 {
        return VarTxStep::Done(i64::MAX, VarTxResult::invalid());
    }
    let tx: usize = MAX_TXSIZE_RECT_LOOKUP[env.bsize];
    let unit_w: usize = TX_SIZE_WIDE_UNIT[tx];
    let unit_h: usize = TX_SIZE_HIGH_UNIT[tx];
    let full_w: usize = MI_SIZE_WIDE_B[env.bsize];
    let full_h: usize = MI_SIZE_HIGH_B[env.bsize];
    let across: usize = (env.max_blocks_wide + unit_w - 1) / unit_w;
    let down: usize = (env.max_blocks_high + unit_h - 1) / unit_h;
    proof {
        assert(full_w == unit_w || full_w == 2 * unit_w);
        assert(full_h == unit_h || full_h == 2 * unit_h);
        lemma_units(env.max_blocks_wide as int, unit_w as int, full_w as int);
        lemma_units(env.max_blocks_high as int, unit_h as int, full_h as int);
        assert(0 <= across * down <= 4) by (nonlinear_arith)
            requires
                0 <= across <= 2,
                0 <= down <= 2,
        ;
    }
    let count: usize = across * down;
    let leaves: Vec<VarTxLeaf> = Vec::new();
    assert(leaf_models(leaves@) =~= Seq::empty());
    let st = TreeState {
        above: copy_slice(env.above_ctx, full_w),
        left: copy_slice(env.left_ctx, full_h),
        tx_above: copy_slice(env.tx_above, full_w),
        tx_left: copy_slice(env.tx_left, full_h),
        pos: 0,
    };
    let mut tree = OpenTree { st, stats: NodeStats::none(), leaves };
    assert(tree.stats.within(0 * (16 * MAX_LEAF_DIST)));
    let mut k: usize = 0;
    while k < count
        invariant
            env.valid(),
            forall|i: int| 0 <= i < tape.len() ==> (#[trigger] tape[i]).valid(),
            budget_fits(*env, tape@, ref_best_rd as int),
            ref_best_rd != 0,
            k <= count,
            count == root_count(*env),
            count <= 4,
            across == roots_across(*env),
            unit_w == TX_SIZE_WIDE_UNIT[MAX_TXSIZE_RECT_LOOKUP[env.bsize as int] as int],
            unit_h == TX_SIZE_HIGH_UNIT[MAX_TXSIZE_RECT_LOOKUP[env.bsize as int] as int],
            tree.st.sized(*env),
            tree.stats.rate < i32::MAX,
            tree.stats.within(k * (16 * MAX_LEAF_DIST)),
            leaves_inside(*env, tree.leaves@),
            tree_progress(*env, tape@, ref_best_rd as int, k as int) == (TreeProgress::Open {
                ctx: tree.st.model(),
                stats: tree.stats.model(),
                leaves: leaf_models(tree.leaves@),
            }),
        ensures
            k == count,
        decreases count - k,
    {
        proof {
            lemma_root_position(*env, k as int);
        }
        let step = add_root(
            env,
            tape,
            tree,
            k / across * unit_h,
            k % across * unit_w,
            ref_best_rd,
            Ghost(k as int),
        );
        k = k + 1;
        match step {
            RootStep::Open(t) => {
                tree = t;
            },
            RootStep::Need(request) => {
                proof {
                    lemma_tree_sticky(
                        *env,
                        tape@,
                        ref_best_rd as int,
                        k as int,
                        root_count(*env),
                    );
                }
                return VarTxStep::Need(request.close());
            },
            RootStep::Invalid => {
                proof {
                    lemma_tree_sticky(
                        *env,
                        tape@,
                        ref_best_rd as int,
                        k as int,
                        root_count(*env),
                    );
                }
                return VarTxStep::Done(i64::MAX, VarTxResult::invalid());
            },
        }
    }
    assert(k * (16 * MAX_LEAF_DIST) <= 64 * MAX_LEAF_DIST) by (nonlinear_arith)
        requires
            k <= 4,
            MAX_LEAF_DIST >= 0,
    ;
    let (empty, coded) = header_costs(env, &tree.stats);
    let mut inter_tx_size: [usize; 16] = [tx; 16];
    let ghost all = leaf_models(tree.leaves@);
    assert(all.subrange(0, 0) =~= Seq::empty());
    for n in 0..tree.leaves.len()
        invariant
            env.valid(),
            leaves_inside(*env, tree.leaves@),
            all == leaf_models(tree.leaves@),
            tx == MAX_TXSIZE_RECT_LOOKUP[env.bsize as int],
            forall|j: int|
                0 <= j < 16 ==> #[trigger] inter_tx_size[j] == recorded_size(
                    env.bsize as int,
                    all.subrange(0, n as int),
                    j,
                    tx as int,
                ),
    {
        let ghost sizes0 = inter_tx_size@;
        assert(leaf_inside(*env, tree.leaves@[n as int]));
        record_leaf(&mut inter_tx_size, env.bsize, &tree.leaves[n]);
        proof {
            let next = all.subrange(0, n + 1);
            assert(next.last() == tree.leaves@[n as int].model());
            assert(next.drop_last() =~= all.subrange(0, n as int));
        }
    }
    assert(all.subrange(0, all.len() as int) =~= all);
    let skip_txfm = empty <= coded;
    let final_rd: i64 = if empty < coded { empty } else { coded };
    let tx_size: usize = inter_tx_size[0];
    VarTxStep::Done(
        final_rd,
        VarTxResult {
            valid: true,
            rate: tree.stats.rate,
            dist: tree.stats.dist,
            sse: tree.stats.sse,
            skip_txfm,
            inter_tx_size,
            tx_size,
            leaves: tree.leaves,
        },
    )
}

/// The transform search of an inter or block-copy luma block: the figures,
/// the leaves and the transform sizes of the cheapest tree, or the next leaf
/// that has to be searched.
pub fn pick_recursive_tx_size_type_yrd(
    env: &VarTxEnv<'_>,
    tape: &[LeafEvent],
    ref_best_rd: i64,
) -> (r: Result<VarTxResult, LeafRequest>)
    requires
        env.valid(),
        forall|i: int| 0 <= i < tape.len() ==> (#[trigger] tape[i]).valid(),
        budget_fits(*env, tape@, ref_best_rd as int),
    ensures
        ref_best_rd == 0 ==> (r matches Ok(res) && res.is_invalid()),
        ref_best_rd != 0 ==> match tree_progress(
            *env,
            tape@,
            ref_best_rd as int,
            root_count(*env),
        ) {
            TreeProgress::Need(q) => r matches Err(e) && e.model() == q,
            TreeProgress::Invalid => r matches Ok(res) && res.is_invalid(),
            TreeProgress::Open { ctx, stats, leaves } => r matches Ok(res) && res.reports(
                *env,
                stats,
                leaves,
            ),
        },
{
    match select_tx_size_and_type(env, tape, ref_best_rd) {
        VarTxStep::Need(request) => Err(request),
        VarTxStep::Done(_rd, result) => Ok(result),
    }
}

/// Reading on beyond what was needed changes nothing: a node decided on a tape
/// is decided the same way on every longer one.
proof fn lemma_node_extend(
    env: VarTxEnv,
    tape: Seq<LeafEvent>,
    more: Seq<LeafEvent>,
    ctx: TreeContext,
    row: int,
    col: int,
    tx_size: int,
    depth: int,
    prev_level_rd: int,
    ref_best_rd: int,
)
    requires
        ctx.pos >= 0,
        !(node_outcome(
            env,
            tape,
            ctx,
            row,
            col,
            tx_size,
            depth,
            prev_level_rd,
            ref_best_rd,
        ) is Need),
    ensures
        node_outcome(
            env,
            tape + more,
            ctx,
            row,
            col,
            tx_size,
            depth,
            prev_level_rd,
            ref_best_rd,
        ) == node_outcome(
            env,
            tape,
            ctx,
            row,
            col,
            tx_size,
            depth,
            prev_level_rd,
            ref_best_rd,
        ),
        node_outcome(
            env,
            tape,
            ctx,
            row,
            col,
            tx_size,
            depth,
            prev_level_rd,
            ref_best_rd,
        )->Done_0.ctx.pos >= ctx.pos,
    decreases tree_fuel(depth), 100int,
{
    reveal(node_outcome);
    if ref_best_rd >= 0 && ctx.pos < tape.len() {
        let ev = tape[ctx.pos];
        assert((tape + more)[ctx.pos] == ev);
        let ctx1 = TreeContext { pos: ctx.pos + 1, ..ctx };
        let context = split_context(ctx.tx_above[col], ctx.tx_left[row], env.bsize as int, tx_size);
        let (stats, leaf) = whole_node(env, ev, row, col, tx_size, depth, context);
        let rd = stats.cost(env.rdmult as int);
        if split_open(env, ev, tx_size, depth, rd, leaf.eob, prev_level_rd, ref_best_rd) {
            let level = env.adaptive_txb_search_level as int;
            if !(level > 0 && rd != i64::MAX && rd - rd / pow2i(1 + level) > ref_best_rd) {
                lemma_split_extend(
                    env,
                    tape,
                    more,
                    ctx1,
                    row,
                    col,
                    tx_size,
                    depth,
                    context,
                    rd,
                    min_int(rd, ref_best_rd),
                    part_count(tx_size),
                );
            }
        }
    }
}

/// The context a split has reached.
spec fn reached(s: SplitOutcome) -> TreeContext {
    match s {
        SplitOutcome::Failed(c) => c,
        SplitOutcome::Open { ctx, .. } => ctx,
        SplitOutcome::Need(_) => arbitrary(),
    }
}

proof fn lemma_split_extend(
    env: VarTxEnv,
    tape: Seq<LeafEvent>,
    more: Seq<LeafEvent>,
    ctx: TreeContext,
    row: int,
    col: int,
    tx_size: int,
    depth: int,
    context: int,
    whole_rd: int,
    ref_best_rd: int,
    k: int,
)
    requires
        ctx.pos >= 0,
        k <= 4,
        depth < 3,
        !(split_outcome(
            env,
            tape,
            ctx,
            row,
            col,
            tx_size,
            depth,
            context,
            whole_rd,
            ref_best_rd,
            k,
        ) is Need),
    ensures
        split_outcome(
            env,
            tape + more,
            ctx,
            row,
            col,
            tx_size,
            depth,
            context,
            whole_rd,
            ref_best_rd,
            k,
        ) == split_outcome(
            env,
            tape,
            ctx,
            row,
            col,
            tx_size,
            depth,
            context,
            whole_rd,
            ref_best_rd,
            k,
        ),
        reached(
            split_outcome(
                env,
                tape,
                ctx,
                row,
                col,
                tx_size,
                depth,
                context,
                whole_rd,
                ref_best_rd,
                k,
            ),
        ).pos >= ctx.pos,
    decreases tree_fuel(depth), 50 + k,
{
    if k > 0 {
        lemma_split_extend(
            env,
            tape,
            more,
            ctx,
            row,
            col,
            tx_size,
            depth,
            context,
            whole_rd,
            ref_best_rd,
            k - 1,
        );
        match split_outcome(
            env,
            tape,
            ctx,
            row,
            col,
            tx_size,
            depth,
            context,
            whole_rd,
            ref_best_rd,
            k - 1,
        ) {
            SplitOutcome::Open { ctx: c, stats, leaves } => {
                lemma_part_extend(
                    env,
                    tape,
                    more,
                    c,
                    stats,
                    leaves,
                    row,
                    col,
                    tx_size,
                    depth,
                    whole_rd,
                    ref_best_rd,
                    k - 1,
                );
            },
            _ => {},
        }
    }
}

proof fn lemma_part_extend(
    env: VarTxEnv,
    tape: Seq<LeafEvent>,
    more: Seq<LeafEvent>,
    ctx: TreeContext,
    stats: NodeModel,
    leaves: Seq<LeafModel>,
    row: int,
    col: int,
    tx_size: int,
    depth: int,
    whole_rd: int,
    ref_best_rd: int,
    i: int,
)
    requires
        ctx.pos >= 0,
        depth < 3,
        !(part_outcome(
            env,
            tape,
            ctx,
            stats,
            leaves,
            row,
            col,
            tx_size,
            depth,
            whole_rd,
            ref_best_rd,
            i,
        ) is Need),
    ensures
        part_outcome(
            env,
            tape + more,
            ctx,
            stats,
            leaves,
            row,
            col,
            tx_size,
            depth,
            whole_rd,
            ref_best_rd,
            i,
        ) == part_outcome(
            env,
            tape,
            ctx,
            stats,
            leaves,
            row,
            col,
            tx_size,
            depth,
            whole_rd,
            ref_best_rd,
            i,
        ),
        reached(
            part_outcome(
                env,
                tape,
                ctx,
                stats,
                leaves,
                row,
                col,
                tx_size,
                depth,
                whole_rd,
                ref_best_rd,
                i,
            ),
        ).pos >= ctx.pos,
    decreases tree_fuel(depth), 20int,
{
    reveal(node_outcome);
    let sub = SUB_TX_SIZE_MAP[tx_size] as int;
    let r = row + (i / parts_across(tx_size)) * TX_SIZE_HIGH_UNIT[sub];
    let q = col + (i % parts_across(tx_size)) * TX_SIZE_WIDE_UNIT[sub];
    if r < env.max_blocks_high && q < env.max_blocks_wide {
        lemma_node_extend(
            env,
            tape,
            more,
            ctx,
            r,
            q,
            sub,
            depth + 1,
            if whole_rd == i64::MAX {
                i64::MAX as int
            } else {
                trunc_div(whole_rd, part_count(tx_size))
            },
            if ref_best_rd == i64::MAX {
                i64::MAX as int
            } else {
                ref_best_rd - stats.cost(env.rdmult as int)
            },
        );
    }
}

/// Once a tape suffices, the outcome of the search is settled: whatever is
/// added to the tape, the block is decided the same way.
pub proof fn law_outcome_is_settled(
    env: VarTxEnv,
    tape: Seq<LeafEvent>,
    more: Seq<LeafEvent>,
    ref_best_rd: int,
    k: int,
)
    requires
        !(tree_progress(env, tape, ref_best_rd, k) is Need),
    ensures
        tree_progress(env, tape + more, ref_best_rd, k) == tree_progress(
            env,
            tape,
            ref_best_rd,
            k,
        ),
        tree_progress(env, tape, ref_best_rd, k) matches TreeProgress::Open { ctx, .. }
            ==> ctx.pos >= 0,
    decreases k,
{
    if k > 0 {
        law_outcome_is_settled(env, tape, more, ref_best_rd, k - 1);
        match tree_progress(env, tape, ref_best_rd, k - 1) {
            TreeProgress::Open { ctx, stats, leaves } => {
                let tx = MAX_TXSIZE_RECT_LOOKUP[env.bsize as int] as int;
                lemma_node_extend(
                    env,
                    tape,
                    more,
                    ctx,
                    ((k - 1) / roots_across(env)) * TX_SIZE_HIGH_UNIT[tx],
                    ((k - 1) % roots_across(env)) * TX_SIZE_WIDE_UNIT[tx],
                    tx,
                    env.init_depth as int,
                    i64::MAX as int,
                    if ref_best_rd == i64::MAX {
                        i64::MAX as int
                    } else {
                        ref_best_rd - min_int(empty_rd(env, stats), coded_rd(env, stats))
                    },
                );
            },
            _ => {},
        }
    }
}

/// A valid node coded as one transform is never dearer than leaving it empty:
/// the choice between the two is the cheaper one, unless the block is
/// lossless.
pub proof fn law_whole_node_is_no_dearer_than_empty(
    env: VarTxEnv,
    ev: LeafEvent,
    row: int,
    col: int,
    depth: int,
    context: int,
)
    requires
        env.valid(),
        ev.valid(),
        !env.lossless,
        ev.leaf matches Some(l) && !l.skip_txfm,
    ensures
        whole_node(env, ev, row, col, 0, depth, context).0.cost(env.rdmult as int) <= cost_of(
            env.rdmult as int,
            ev.zero_blk_rate as int,
            ev.leaf.unwrap().sse as int,
        ),
{
}

/// A leaf lies over the unit in row `y` and column `x`.
pub open spec fn lies_over(leaf: LeafModel, y: int, x: int) -> bool {
    in_tx(leaf.blk_row, leaf.blk_col, leaf.tx_size, y, x)
}

/// A unit is within the transform at `(row, col)`.
pub open spec fn in_tx(row: int, col: int, tx_size: int, y: int, x: int) -> bool {
    row <= y < row + TX_SIZE_HIGH_UNIT[tx_size] && col <= x < col + TX_SIZE_WIDE_UNIT[tx_size]
}

/// Number of leaves over a unit.
pub open spec fn leaves_over(leaves: Seq<LeafModel>, y: int, x: int) -> int
    decreases leaves.len(),
{
    if leaves.len() == 0 {
        0
    } else {
        leaves_over(leaves.drop_last(), y, x) + (if lies_over(leaves.last(), y, x) {
            1int
        } else {
            0
        })
    }
}

proof fn lemma_leaves_over_add(a: Seq<LeafModel>, b: Seq<LeafModel>, y: int, x: int)
    ensures
        leaves_over(a + b, y, x) == leaves_over(a, y, x) + leaves_over(b, y, x),
    decreases b.len(),
{
    if b.len() == 0 {
        assert(a + b == a);
    } else {
        assert((a + b).drop_last() == a + b.drop_last());
        assert((a + b).last() == b.last());
        lemma_leaves_over_add(a, b.drop_last(), y, x);
    }
}

/// Row and column of part `i` of a split.
pub open spec fn part_pos(row: int, col: int, tx_size: int, i: int) -> (int, int) {
    let sub = SUB_TX_SIZE_MAP[tx_size] as int;
    (
        row + (i / parts_across(tx_size)) * TX_SIZE_HIGH_UNIT[sub],
        col + (i % parts_across(tx_size)) * TX_SIZE_WIDE_UNIT[sub],
    )
}

/// Number of the first `k` parts of a split that hold a unit.
spec fn parts_over(row: int, col: int, tx_size: int, y: int, x: int, k: int) -> int
    decreases k,
{
    if k <= 0 {
        0
    } else {
        let at = part_pos(row, col, tx_size, k - 1);
        parts_over(row, col, tx_size, y, x, k - 1) + (if in_tx(
            at.0,
            at.1,
            SUB_TX_SIZE_MAP[tx_size] as int,
            y,
            x,
        ) {
            1int
        } else {
            0
        })
    }
}

/// A unit is in exactly one part of a split when it is in the transform, and
/// in none otherwise.
proof fn lemma_parts_over(row: int, col: int, tx_size: int, y: int, x: int)
    requires
        0 < tx_size < 19,
    ensures
        parts_over(row, col, tx_size, y, x, part_count(tx_size)) == (if in_tx(
            row,
            col,
            tx_size,
            y,
            x,
        ) {
            1int
        } else {
            0
        }),
{
    law_parts_tile(tx_size);
    reveal_with_fuel(parts_over, 5);
    let sub = SUB_TX_SIZE_MAP[tx_size] as int;
    let h = TX_SIZE_HIGH_UNIT[sub] as int;
    let w = TX_SIZE_WIDE_UNIT[sub] as int;
    assert(0 * h == 0 && 1 * h == h && 0 * w == 0 && 1 * w == w) by (nonlinear_arith);
    if parts_across(tx_size) == 2 {
        assert(part_pos(row, col, tx_size, 0) == (row, col)) by {
            assert(0int / 2 == 0 && 0int % 2 == 0);
        }
        assert(part_pos(row, col, tx_size, 1) == (row, col + w)) by {
            assert(1int / 2 == 0 && 1int % 2 == 1);
        }
        assert(part_pos(row, col, tx_size, 2) == (row + h, col)) by {
            assert(2int / 2 == 1 && 2int % 2 == 0);
        }
        assert(part_pos(row, col, tx_size, 3) == (row + h, col + w)) by {
            assert(3int / 2 == 1 && 3int % 2 == 1);
        }
    } else {
        assert(part_pos(row, col, tx_size, 0) == (row, col)) by {
            assert(0int / 1 == 0 && 0int % 1 == 0);
        }
        assert(part_pos(row, col, tx_size, 1) == (row + h, col)) by {
            assert(1int / 1 == 1 && 1int % 1 == 0);
        }
    }
}

/// The leaves of a valid node lie over each of its visible units once, and
/// over no unit outside it.
proof fn lemma_node_tiles(
    env: VarTxEnv,
    tape: Seq<LeafEvent>,
    ctx: TreeContext,
    row: int,
    col: int,
    tx_size: int,
    depth: int,
    prev_level_rd: int,
    ref_best_rd: int,
    y: int,
    x: int,
)
    requires
        0 <= tx_size < 19,
        y < env.max_blocks_high,
        x < env.max_blocks_wide,
    ensures
        node_outcome(
            env,
            tape,
            ctx,
            row,
            col,
            tx_size,
            depth,
            prev_level_rd,
            ref_best_rd,
        ) matches NodeOutcome::Done(d) ==> (d.valid ==> leaves_over(d.leaves, y, x) == (if in_tx(
            row,
            col,
            tx_size,
            y,
            x,
        ) {
            1int
        } else {
            0
        })),
    decreases tree_fuel(depth), 100int,
{
    reveal(node_outcome);
    if ref_best_rd >= 0 && ctx.pos < tape.len() {
        let ev = tape[ctx.pos];
        let ctx1 = TreeContext { pos: ctx.pos + 1, ..ctx };
        let context = split_context(ctx.tx_above[col], ctx.tx_left[row], env.bsize as int, tx_size);
        let (stats, leaf) = whole_node(env, ev, row, col, tx_size, depth, context);
        let rd = stats.cost(env.rdmult as int);
        let one = seq![leaf];
        assert(leaves_over(one, y, x) == (if in_tx(row, col, tx_size, y, x) {
            1int
        } else {
            0
        })) by {
            reveal_with_fuel(leaves_over, 2);
            assert(one.drop_last() == Seq::<LeafModel>::empty());
            assert(one.last() == leaf);
        }
        if split_open(env, ev, tx_size, depth, rd, leaf.eob, prev_level_rd, ref_best_rd) {
            lemma_split_tiles(
                env,
                tape,
                ctx1,
                row,
                col,
                tx_size,
                depth,
                context,
                rd,
                min_int(rd, ref_best_rd),
                part_count(tx_size),
                y,
                x,
            );
            lemma_parts_over(row, col, tx_size, y, x);
        }
    }
}

proof fn lemma_split_tiles(
    env: VarTxEnv,
    tape: Seq<LeafEvent>,
    ctx: TreeContext,
    row: int,
    col: int,
    tx_size: int,
    depth: int,
    context: int,
    whole_rd: int,
    ref_best_rd: int,
    k: int,
    y: int,
    x: int,
)
    requires
        0 < tx_size < 19,
        y < env.max_blocks_high,
        x < env.max_blocks_wide,
    ensures
        split_outcome(
            env,
            tape,
            ctx,
            row,
            col,
            tx_size,
            depth,
            context,
            whole_rd,
            ref_best_rd,
            k,
        ) matches SplitOutcome::Open { leaves, .. } ==> leaves_over(leaves, y, x) == parts_over(
            row,
            col,
            tx_size,
            y,
            x,
            k,
        ),
    decreases tree_fuel(depth), 50 + k,
{
    if k > 0 && depth < 3 {
        lemma_split_tiles(
            env,
            tape,
            ctx,
            row,
            col,
            tx_size,
            depth,
            context,
            whole_rd,
            ref_best_rd,
            k - 1,
            y,
            x,
        );
        match split_outcome(
            env,
            tape,
            ctx,
            row,
            col,
            tx_size,
            depth,
            context,
            whole_rd,
            ref_best_rd,
            k - 1,
        ) {
            SplitOutcome::Open { ctx: c, stats, leaves } => {
                lemma_part_tiles(
                    env,
                    tape,
                    c,
                    stats,
                    leaves,
                    row,
                    col,
                    tx_size,
                    depth,
                    whole_rd,
                    ref_best_rd,
                    k - 1,
                    y,
                    x,
                );
            },
            _ => {},
        }
    }
}

proof fn lemma_part_tiles(
    env: VarTxEnv,
    tape: Seq<LeafEvent>,
    ctx: TreeContext,
    stats: NodeModel,
    leaves: Seq<LeafModel>,
    row: int,
    col: int,
    tx_size: int,
    depth: int,
    whole_rd: int,
    ref_best_rd: int,
    i: int,
    y: int,
    x: int,
)
    requires
        0 < tx_size < 19,
        depth < 3,
        y < env.max_blocks_high,
        x < env.max_blocks_wide,
    ensures
        part_outcome(
            env,
            tape,
            ctx,
            stats,
            leaves,
            row,
            col,
            tx_size,
            depth,
            whole_rd,
            ref_best_rd,
            i,
        ) matches SplitOutcome::Open { leaves: after, .. } ==> leaves_over(after, y, x)
            == leaves_over(leaves, y, x) + (if in_tx(
            part_pos(row, col, tx_size, i).0,
            part_pos(row, col, tx_size, i).1,
            SUB_TX_SIZE_MAP[tx_size] as int,
            y,
            x,
        ) {
            1int
        } else {
            0
        }),
    decreases tree_fuel(depth), 20int,
{
    reveal(node_outcome);
    let sub = SUB_TX_SIZE_MAP[tx_size] as int;
    let at = part_pos(row, col, tx_size, i);
    if at.0 < env.max_blocks_high && at.1 < env.max_blocks_wide {
        let prev = if whole_rd == i64::MAX {
            i64::MAX as int
        } else {
            trunc_div(whole_rd, part_count(tx_size))
        };
        let left = if ref_best_rd == i64::MAX {
            i64::MAX as int
        } else {
            ref_best_rd - stats.cost(env.rdmult as int)
        };
        lemma_node_tiles(env, tape, ctx, at.0, at.1, sub, depth + 1, prev, left, y, x);
        match node_outcome(env, tape, ctx, at.0, at.1, sub, depth + 1, prev, left) {
            NodeOutcome::Done(d) => {
                lemma_leaves_over_add(leaves, d.leaves, y, x);
            },
            _ => {},
        }
    }
}

/// Number of the first `k` largest transforms of a block that hold a unit.
spec fn roots_over(env: VarTxEnv, y: int, x: int, k: int) -> int
    decreases k,
{
    if k <= 0 {
        0
    } else {
        let tx = MAX_TXSIZE_RECT_LOOKUP[env.bsize as int] as int;
        roots_over(env, y, x, k - 1) + (if in_tx(
            ((k - 1) / roots_across(env)) * TX_SIZE_HIGH_UNIT[tx],
            ((k - 1) % roots_across(env)) * TX_SIZE_WIDE_UNIT[tx],
            tx,
            y,
            x,
        ) {
            1int
        } else {
            0
        })
    }
}

proof fn lemma_roots_over(env: VarTxEnv, y: int, x: int)
    requires
        env.valid(),
        0 <= y < env.max_blocks_high,
        0 <= x < env.max_blocks_wide,
    ensures
        roots_over(env, y, x, root_count(env)) == 1,
{
    let tx = MAX_TXSIZE_RECT_LOOKUP[env.bsize as int] as int;
    let w = TX_SIZE_WIDE_UNIT[tx] as int;
    let h = TX_SIZE_HIGH_UNIT[tx] as int;
    let fw = MI_SIZE_WIDE_B[env.bsize as int] as int;
    let fh = MI_SIZE_HIGH_B[env.bsize as int] as int;
    assert(fw == w || fw == 2 * w);
    assert(fh == h || fh == 2 * h);
    let a = roots_across(env);
    let b = units(env.max_blocks_high as int, h);
    lemma_units(env.max_blocks_wide as int, w, fw);
    lemma_units(env.max_blocks_high as int, h, fh);
    lemma_units_cover(env.max_blocks_wide as int, w);
    lemma_units_cover(env.max_blocks_high as int, h);
    assert((a == 1 ==> a * w == w) && (a == 2 ==> a * w == 2 * w)) by (nonlinear_arith);
    assert((b == 1 ==> b * h == h) && (b == 2 ==> b * h == 2 * h)) by (nonlinear_arith);
    assert((a == 1 ==> a * b == b) && (a == 2 ==> a * b == 2 * b)) by (nonlinear_arith);
    assert(0 * h == 0 && 1 * h == h && 0 * w == 0 && 1 * w == w) by (nonlinear_arith);
    reveal_with_fuel(roots_over, 5);
    if a == 1 {
        assert(0int / 1 == 0 && 0int % 1 == 0 && 1int / 1 == 1 && 1int % 1 == 0);
    } else {
        assert(0int / 2 == 0 && 0int % 2 == 0 && 1int / 2 == 0 && 1int % 2 == 1);
        assert(2int / 2 == 1 && 2int % 2 == 0 && 3int / 2 == 1 && 3int % 2 == 1);
    }
}

proof fn lemma_units_cover(n: int, d: int)
    requires
        1 <= n,
        1 <= d,
    ensures
        1 <= units(n, d),
        n <= units(n, d) * d,
{
    assert(1 <= (n + d - 1) / d && n <= ((n + d - 1) / d) * d) by (nonlinear_arith)
        requires
            1 <= n,
            1 <= d,
    ;
}

proof fn lemma_tree_tiles(
    env: VarTxEnv,
    tape: Seq<LeafEvent>,
    ref_best_rd: int,
    k: int,
    y: int,
    x: int,
)
    requires
        env.valid(),
        0 <= y < env.max_blocks_high,
        0 <= x < env.max_blocks_wide,
    ensures
        tree_progress(env, tape, ref_best_rd, k) matches TreeProgress::Open { leaves, .. }
            ==> leaves_over(leaves, y, x) == roots_over(env, y, x, k),
    decreases k,
{
    if k > 0 {
        lemma_tree_tiles(env, tape, ref_best_rd, k - 1, y, x);
        match tree_progress(env, tape, ref_best_rd, k - 1) {
            TreeProgress::Open { ctx, stats, leaves } => {
                let tx = MAX_TXSIZE_RECT_LOOKUP[env.bsize as int] as int;
                let row = ((k - 1) / roots_across(env)) * TX_SIZE_HIGH_UNIT[tx];
                let col = ((k - 1) % roots_across(env)) * TX_SIZE_WIDE_UNIT[tx];
                let left = if ref_best_rd == i64::MAX {
                    i64::MAX as int
                } else {
                    ref_best_rd - min_int(empty_rd(env, stats), coded_rd(env, stats))
                };
                let depth = env.init_depth as int;
                lemma_node_tiles(
                    env,
                    tape,
                    ctx,
                    row,
                    col,
                    tx,
                    depth,
                    i64::MAX as int,
                    left,
                    y,
                    x,
                );
                match node_outcome(env, tape, ctx, row, col, tx, depth, i64::MAX as int, left) {
                    NodeOutcome::Done(d) => {
                        lemma_leaves_over_add(leaves, d.leaves, y, x);
                    },
                    _ => {},
                }
            },
            _ => {},
        }
    }
}

/// The leaves of a decided block tile it: each of its visible units lies under
/// exactly one leaf.
pub proof fn law_leaves_tile_the_block(
    env: VarTxEnv,
    tape: Seq<LeafEvent>,
    ref_best_rd: int,
    y: int,
    x: int,
)
    requires
        env.valid(),
        0 <= y < env.max_blocks_high,
        0 <= x < env.max_blocks_wide,
    ensures
        tree_progress(env, tape, ref_best_rd, root_count(env)) matches TreeProgress::Open {
            leaves,
            ..
        } ==> leaves_over(leaves, y, x) == 1,
{
    lemma_tree_tiles(env, tape, ref_best_rd, root_count(env), y, x);
    lemma_roots_over(env, y, x);
}

/// What is paid for telling that a node is not split.
pub open spec fn whole_flag(
    env: VarTxEnv,
    ctx: TreeContext,
    row: int,
    col: int,
    tx_size: int,
    depth: int,
) -> int {
    if tx_size > 0 && depth < MAX_VARTX_DEPTH {
        env.txfm_partition_cost[split_context(
            ctx.tx_above[col],
            ctx.tx_left[row],
            env.bsize as int,
            tx_size,
        )][0] as int
    } else {
        0
    }
}

/// The tree takes the cheaper way: a node whose leaf has been searched is
/// coded, unless costs are compared early, and at no more than what the leaf
/// costs as it was searched, with the flag that says so; nor, where leaving
/// it empty is allowed, at more than that costs. Rounding can add one.
pub proof fn law_node_costs_no_more_than_its_leaf(
    env: VarTxEnv,
    tape: Seq<LeafEvent>,
    ctx: TreeContext,
    row: int,
    col: int,
    tx_size: int,
    depth: int,
    prev_level_rd: int,
    ref_best_rd: int,
)
    requires
        env.valid(),
        0 <= ctx.pos < tape.len(),
        tape[ctx.pos].valid(),
        ref_best_rd >= 0,
        env.adaptive_txb_search_level <= 0,
        tape[ctx.pos].leaf matches Some(l) && l.rate + whole_flag(
            env,
            ctx,
            row,
            col,
            tx_size,
            depth,
        ) < i32::MAX && tape[ctx.pos].zero_blk_rate + whole_flag(
            env,
            ctx,
            row,
            col,
            tx_size,
            depth,
        ) < i32::MAX,
        env.rdmult >= 0,
        0 <= whole_flag(env, ctx, row, col, tx_size, depth),
    ensures
        node_outcome(
            env,
            tape,
            ctx,
            row,
            col,
            tx_size,
            depth,
            prev_level_rd,
            ref_best_rd,
        ) matches NodeOutcome::Done(d) ==> {
            let l = tape[ctx.pos].leaf->Some_0;
            let flag = whole_flag(env, ctx, row, col, tx_size, depth);
            let m = env.rdmult as int;
            &&& d.valid
            &&& rd_value(m, d.stats.rate, d.stats.dist) <= rd_value(m, l.rate + flag, l.dist as int)
                + 1 || l.skip_txfm && !env.lossless
            &&& !env.lossless ==> rd_value(m, d.stats.rate, d.stats.dist) <= rd_value(
                m,
                tape[ctx.pos].zero_blk_rate + flag,
                l.sse as int,
            ) + 1
            &&& env.lossless ==> rd_value(m, d.stats.rate, d.stats.dist) <= rd_value(
                m,
                l.rate + flag,
                l.dist as int,
            )
        },
{
    reveal(node_outcome);
    let ev = tape[ctx.pos];
    let l = ev.leaf->Some_0;
    let context = split_context(ctx.tx_above[col], ctx.tx_left[row], env.bsize as int, tx_size);
    let flag = whole_flag(env, ctx, row, col, tx_size, depth);
    let m = env.rdmult as int;
    let w = whole_node(env, ev, row, col, tx_size, depth, context).0;
    lemma_flag_rounds(m, l.rate as int, ev.zero_blk_rate as int, flag);
    lemma_flag_rounds(m, ev.zero_blk_rate as int, l.rate as int, flag);
    lemma_rd_fits(m, l.rate + flag, l.dist as int);
    lemma_rd_fits(m, ev.zero_blk_rate + flag, l.sse as int);
    assert(w.cost(m) < i64::MAX);
    assert(w.cost(m) == rd_value(m, w.rate, w.dist));
}

proof fn lemma_rd_fits(m: int, rate: int, dist: int)
    requires
        0 <= m <= i32::MAX,
        0 <= rate < i32::MAX,
        -MAX_LEAF_DIST <= dist <= MAX_LEAF_DIST,
    ensures
        rd_value(m, rate, dist) < i64::MAX,
{
    assert(0 <= rate * m <= 0x4000_0000_0000_0000) by (nonlinear_arith)
        requires
            0 <= rate <= 0x7fff_ffff,
            0 <= m <= 0x7fff_ffff,
    ;
}

/// Adding the same rate to two costs keeps their order, up to rounding.
proof fn lemma_flag_rounds(m: int, a: int, b: int, flag: int)
    requires
        m >= 0,
        flag >= 0,
    ensures
        forall|x: int, y: int|
            #![trigger rd_value(m, a, x), rd_value(m, b, y)]
            rd_value(m, a, x) <= rd_value(m, b, y) ==> rd_value(m, a + flag, x) <= rd_value(
                m,
                b + flag,
                y,
            ) + 1,
{
    assert((a + flag) * m == a * m + flag * m && (b + flag) * m == b * m + flag * m)
        by (nonlinear_arith);
}

impl NodeModel {
    /// The figures of parts add up, in whatever order: rate, distortion and
    /// energy are sums, the whole is empty where both parts are, and nothing
    /// adds nothing.
    pub proof fn law_parts_add_up(self, o: NodeModel)
        requires
            self.rate < i32::MAX,
            o.rate < i32::MAX,
            self.rate + o.rate < i32::MAX,
        ensures
            self.merged(o) == o.merged(self),
            self.merged(o).rate == self.rate + o.rate,
            self.merged(o).dist == self.dist + o.dist,
            self.merged(o).sse == self.sse + o.sse,
            self.merged(o).skip_txfm <==> self.skip_txfm && o.skip_txfm,
            self.merged(NodeModel::none()) == self,
            self.merged(NodeModel::invalid()) == NodeModel::invalid(),
    {
    }
}

/// The two sides of a block count alike in the context of a split flag: a block
/// and a transform turned on their sides, with the neighbours swapped, have the
/// same context. Each neighbour with a smaller transform raises it by one, and
/// a transform below the largest is told apart from the largest.
pub proof fn law_split_context_treats_sides_alike(
    above: u8,
    left: u8,
    bsize: int,
    tx_size: int,
    turned: int,
    turned_tx: int,
)
    requires
        0 < bsize < 22,
        0 < turned < 22,
        0 < tx_size < 19,
        0 < turned_tx < 19,
        BLK_W_B[bsize] == BLK_H_B[turned],
        BLK_H_B[bsize] == BLK_W_B[turned],
        TXS_W[tx_size] == TXS_H[turned_tx],
        TXS_H[tx_size] == TXS_W[turned_tx],
    ensures
        split_context(above, left, bsize, tx_size) == split_context(left, above, turned, turned_tx),
        split_context(above, left, bsize, tx_size) - split_context(255, 255, bsize, tx_size) == (
        if above < TXS_W[tx_size] {
            1int
        } else {
            0
        }) + (if left < TXS_H[tx_size] {
            1int
        } else {
            0
        }),
        split_context(255, 255, bsize, tx_size) % 3 == 0,
        ({
            let (w, h) = (BLK_W_B[bsize] as int, BLK_H_B[bsize] as int);
            let side = if w > h { w } else { h };
            let (v, u) = (TXS_W[tx_size] as int, TXS_H[tx_size] as int);
            let longer = if v > u { v } else { u };
            split_context(255, 255, bsize, tx_size) - split_context(
                255,
                255,
                bsize,
                MAX_TXSIZE_RECT_LOOKUP[bsize] as int,
            ) == (if longer != (if side > 64 {
                64
            } else {
                side
            }) && side > 8 {
                3int
            } else {
                0
            })
        }),
{
}

impl TreeContext {
    /// A coded leaf leaves its entropy context along its upper and its left
    /// edge, its width along the upper and its height along the left; what does
    /// not lie along it stays.
    pub proof fn law_leaf_leaves_its_marks(self, leaf: LeafModel, i: int)
        requires
            0 <= leaf.tx_size < 19,
            leaf.txb_ctx < 128,
            0 <= i,
        ensures
            ({
                let t = self.stamped(leaf);
                let w = TXS_W[leaf.tx_size] as int / 4;
                let h = TXS_H[leaf.tx_size] as int / 4;
                &&& (i < self.above.len() && leaf.blk_col <= i < leaf.blk_col + w ==> t.above[i]
                    == leaf.txb_ctx)
                &&& (i < self.left.len() && leaf.blk_row <= i < leaf.blk_row + h ==> t.left[i]
                    == leaf.txb_ctx)
                &&& (i < self.tx_above.len() && leaf.blk_col <= i < leaf.blk_col + w
                    ==> t.tx_above[i] == TXS_W[leaf.tx_size])
                &&& (i < self.tx_left.len() && leaf.blk_row <= i < leaf.blk_row + h ==> t.tx_left[i]
                    == TXS_H[leaf.tx_size])
                &&& (i < self.above.len() && !(leaf.blk_col <= i < leaf.blk_col + w)
                    ==> t.above[i] == self.above[i])
                &&& (i < self.left.len() && !(leaf.blk_row <= i < leaf.blk_row + h) ==> t.left[i]
                    == self.left[i])
                &&& (i < self.tx_above.len() && !(leaf.blk_col <= i < leaf.blk_col + w)
                    ==> t.tx_above[i] == self.tx_above[i])
                &&& (i < self.tx_left.len() && !(leaf.blk_row <= i < leaf.blk_row + h)
                    ==> t.tx_left[i] == self.tx_left[i])
                &&& t.pos == self.pos
            }),
    {
        law_tx_units(leaf.tx_size);
    }
}

/// Without early exits every transform over 4x4 is tried in parts down to the
/// deepest level; with them none is tried that is not tried without.
pub proof fn law_split_is_tried_unless_ruled_out(
    env: VarTxEnv,
    ev: LeafEvent,
    tx_size: int,
    depth: int,
    whole_rd: int,
    whole_eob: u16,
    prev_level_rd: int,
    ref_best_rd: int,
)
    ensures
        env.adaptive_txb_search_level <= 0 && !(env.txb_split_cap && whole_eob == 0) && (env.bd != 8
            || env.ml_tx_split_thresh < 0) ==> (split_open(
            env,
            ev,
            tx_size,
            depth,
            whole_rd,
            whole_eob,
            prev_level_rd,
            ref_best_rd,
        ) <==> tx_size > 0 && depth < 2),
        split_open(
            env,
            ev,
            tx_size,
            depth,
            whole_rd,
            whole_eob,
            prev_level_rd,
            ref_best_rd,
        ) ==> tx_size > 0 && depth < 2,
        whole_rd <= prev_level_rd && 0 <= whole_rd && !env.txb_split_cap && ev.split_score >= 0
            && tx_size > 0 && depth < 2 ==> split_open(
            env,
            ev,
            tx_size,
            depth,
            whole_rd,
            whole_eob,
            prev_level_rd,
            ref_best_rd,
        ),
{
    let level = env.adaptive_txb_search_level as int;
    let p = pow2i(2 + level);
    crate::arith::lemma_pow2i_pos(2 + level);
    if 0 <= whole_rd {
        assert(0 <= whole_rd / p) by (nonlinear_arith)
            requires
                0 <= whole_rd,
                1 <= p,
        ;
    }
}

/// The tree takes the cheaper way: a node whose parts can all be coded costs no
/// more than they do with the flag that says so.
pub proof fn law_node_costs_no_more_than_its_parts(
    env: VarTxEnv,
    tape: Seq<LeafEvent>,
    ctx: TreeContext,
    row: int,
    col: int,
    tx_size: int,
    depth: int,
    prev_level_rd: int,
    ref_best_rd: int,
)
    requires
        0 <= ctx.pos < tape.len(),
        ref_best_rd >= 0,
        env.adaptive_txb_search_level <= 0,
        !env.txb_split_cap,
        env.ml_tx_split_thresh < 0,
        0 < tx_size,
        depth < 2,
    ensures
        ({
            let context = split_context(
                ctx.tx_above[col],
                ctx.tx_left[row],
                env.bsize as int,
                tx_size,
            );
            let m = env.rdmult as int;
            let rd = whole_node(env, tape[ctx.pos], row, col, tx_size, depth, context).0.cost(m);
            let parts = split_outcome(
                env,
                tape,
                TreeContext { pos: ctx.pos + 1, ..ctx },
                row,
                col,
                tx_size,
                depth,
                context,
                rd,
                min_int(rd, ref_best_rd),
                part_count(tx_size),
            );
            let node = node_outcome(
                env,
                tape,
                ctx,
                row,
                col,
                tx_size,
                depth,
                prev_level_rd,
                ref_best_rd,
            );
            parts matches SplitOutcome::Open { stats, leaves, .. } ==> (stats.rate != i32::MAX
                ==> (node matches NodeOutcome::Done(d) && d.valid && d.stats.cost(m)
                <= stats.cost(m) && d.stats.cost(m) <= rd && (d.leaves.len() == 1 || d.leaves
                == leaves)))
        }),
{
    reveal(node_outcome);
}

/// All leaves are empty.
pub open spec fn all_empty(leaves: Seq<LeafModel>) -> bool {
    forall|i: int| 0 <= i < leaves.len() ==> (#[trigger] leaves[i]).skip_txfm
}

proof fn lemma_all_empty_add(a: Seq<LeafModel>, b: Seq<LeafModel>)
    ensures
        all_empty(a + b) == (all_empty(a) && all_empty(b)),
{
    let s = a + b;
    if all_empty(s) {
        assert forall|i: int| 0 <= i < a.len() implies (#[trigger] a[i]).skip_txfm by {
            assert(s[i] == a[i]);
        }
        assert forall|i: int| 0 <= i < b.len() implies (#[trigger] b[i]).skip_txfm by {
            assert(s[a.len() + i] == b[i]);
        }
    }
}

proof fn lemma_node_empty(
    env: VarTxEnv,
    tape: Seq<LeafEvent>,
    ctx: TreeContext,
    row: int,
    col: int,
    tx_size: int,
    depth: int,
    prev_level_rd: int,
    ref_best_rd: int,
)
    ensures
        node_outcome(
            env,
            tape,
            ctx,
            row,
            col,
            tx_size,
            depth,
            prev_level_rd,
            ref_best_rd,
        ) matches NodeOutcome::Done(d) ==> (d.valid && d.stats.rate != i32::MAX ==> d.stats.skip_txfm
            == all_empty(d.leaves)),
    decreases tree_fuel(depth), 100int,
{
    reveal(node_outcome);
    if ref_best_rd >= 0 && ctx.pos < tape.len() {
        let ev = tape[ctx.pos];
        let ctx1 = TreeContext { pos: ctx.pos + 1, ..ctx };
        let context = split_context(ctx.tx_above[col], ctx.tx_left[row], env.bsize as int, tx_size);
        let (stats, leaf) = whole_node(env, ev, row, col, tx_size, depth, context);
        let rd = stats.cost(env.rdmult as int);
        let one = seq![leaf];
        assert(one[0] == leaf);
        assert(all_empty(one) == leaf.skip_txfm);
        if split_open(env, ev, tx_size, depth, rd, leaf.eob, prev_level_rd, ref_best_rd) {
            lemma_split_empty(
                env,
                tape,
                ctx1,
                row,
                col,
                tx_size,
                depth,
                context,
                rd,
                min_int(rd, ref_best_rd),
                part_count(tx_size),
            );
        }
    }
}

proof fn lemma_split_empty(
    env: VarTxEnv,
    tape: Seq<LeafEvent>,
    ctx: TreeContext,
    row: int,
    col: int,
    tx_size: int,
    depth: int,
    context: int,
    whole_rd: int,
    ref_best_rd: int,
    k: int,
)
    ensures
        split_outcome(
            env,
            tape,
            ctx,
            row,
            col,
            tx_size,
            depth,
            context,
            whole_rd,
            ref_best_rd,
            k,
        ) matches SplitOutcome::Open { leaves, stats, .. } ==> (stats.rate != i32::MAX
            ==> stats.skip_txfm == all_empty(leaves)),
    decreases tree_fuel(depth), 50 + k,
{
    if k > 0 && depth < 3 {
        lemma_split_empty(
            env,
            tape,
            ctx,
            row,
            col,
            tx_size,
            depth,
            context,
            whole_rd,
            ref_best_rd,
            k - 1,
        );
        match split_outcome(
            env,
            tape,
            ctx,
            row,
            col,
            tx_size,
            depth,
            context,
            whole_rd,
            ref_best_rd,
            k - 1,
        ) {
            SplitOutcome::Open { ctx: c, stats, leaves } => {
                lemma_part_empty(
                    env,
                    tape,
                    c,
                    stats,
                    leaves,
                    row,
                    col,
                    tx_size,
                    depth,
                    whole_rd,
                    ref_best_rd,
                    k - 1,
                );
            },
            _ => {},
        }
    }
}

proof fn lemma_part_empty(
    env: VarTxEnv,
    tape: Seq<LeafEvent>,
    ctx: TreeContext,
    stats: NodeModel,
    leaves: Seq<LeafModel>,
    row: int,
    col: int,
    tx_size: int,
    depth: int,
    whole_rd: int,
    ref_best_rd: int,
    i: int,
)
    requires
        depth < 3,
        stats.rate != i32::MAX ==> stats.skip_txfm == all_empty(leaves),
    ensures
        part_outcome(
            env,
            tape,
            ctx,
            stats,
            leaves,
            row,
            col,
            tx_size,
            depth,
            whole_rd,
            ref_best_rd,
            i,
        ) matches SplitOutcome::Open { leaves: after, stats: sum, .. } ==> (sum.rate != i32::MAX
            ==> sum.skip_txfm == all_empty(after)),
    decreases tree_fuel(depth), 20int,
{
    reveal(node_outcome);
    let at = part_pos(row, col, tx_size, i);
    if at.0 < env.max_blocks_high && at.1 < env.max_blocks_wide {
        let sub = SUB_TX_SIZE_MAP[tx_size] as int;
        let prev = if whole_rd == i64::MAX {
            i64::MAX as int
        } else {
            trunc_div(whole_rd, part_count(tx_size))
        };
        let left = if ref_best_rd == i64::MAX {
            i64::MAX as int
        } else {
            ref_best_rd - stats.cost(env.rdmult as int)
        };
        lemma_node_empty(env, tape, ctx, at.0, at.1, sub, depth + 1, prev, left);
        match node_outcome(env, tape, ctx, at.0, at.1, sub, depth + 1, prev, left) {
            NodeOutcome::Done(d) => {
                lemma_all_empty_add(leaves, d.leaves);
            },
            _ => {},
        }
    }
}

/// A block has no coefficients exactly where none of its leaves has.
pub proof fn law_block_is_empty_where_its_leaves_are(
    env: VarTxEnv,
    tape: Seq<LeafEvent>,
    ref_best_rd: int,
    k: int,
)
    ensures
        tree_progress(env, tape, ref_best_rd, k) matches TreeProgress::Open { stats, leaves, .. }
            ==> stats.rate != i32::MAX && stats.skip_txfm == all_empty(leaves),
    decreases k,
{
    if k > 0 {
        law_block_is_empty_where_its_leaves_are(env, tape, ref_best_rd, k - 1);
        match tree_progress(env, tape, ref_best_rd, k - 1) {
            TreeProgress::Open { ctx, stats, leaves } => {
                let tx = MAX_TXSIZE_RECT_LOOKUP[env.bsize as int] as int;
                let row = ((k - 1) / roots_across(env)) * TX_SIZE_HIGH_UNIT[tx];
                let col = ((k - 1) % roots_across(env)) * TX_SIZE_WIDE_UNIT[tx];
                let left = if ref_best_rd == i64::MAX {
                    i64::MAX as int
                } else {
                    ref_best_rd - min_int(empty_rd(env, stats), coded_rd(env, stats))
                };
                let depth = env.init_depth as int;
                lemma_node_empty(env, tape, ctx, row, col, tx, depth, i64::MAX as int, left);
                match node_outcome(env, tape, ctx, row, col, tx, depth, i64::MAX as int, left) {
                    NodeOutcome::Done(d) => {
                        lemma_all_empty_add(leaves, d.leaves);
                    },
                    _ => {},
                }
            },
            _ => {},
        }
    }
}

/// A leaf's size is recorded wherever the leaf lies, unless a later one lies
/// there too; where none lies the largest size is recorded.
pub proof fn law_leaf_size_is_recorded(
    bsize: int,
    leaves: Seq<LeafModel>,
    i: int,
    dy: int,
    dx: int,
    largest: int,
)
    requires
        0 <= i < leaves.len(),
        0 <= dy < TX_SIZE_HIGH_UNIT[leaves[i].tx_size],
        0 <= dx < TX_SIZE_WIDE_UNIT[leaves[i].tx_size],
        forall|k: int|
            i < k < leaves.len() ==> !leaf_covers(
                bsize,
                #[trigger] leaves[k],
                size_index(bsize, leaves[i].blk_row + dy, leaves[i].blk_col + dx),
            ),
    ensures
        recorded_size(
            bsize,
            leaves,
            size_index(bsize, leaves[i].blk_row + dy, leaves[i].blk_col + dx),
            largest,
        ) == leaves[i].tx_size,
    decreases leaves.len(),
{
    let j = size_index(bsize, leaves[i].blk_row + dy, leaves[i].blk_col + dx);
    if i == leaves.len() - 1 {
        assert(leaf_covers(bsize, leaves.last(), j));
    } else {
        let rest = leaves.drop_last();
        assert(!leaf_covers(bsize, leaves[leaves.len() - 1], j));
        assert(rest[i] == leaves[i]);
        assert forall|k: int| i < k < rest.len() implies !leaf_covers(bsize, #[trigger] rest[k], j) by {
            assert(rest[k] == leaves[k]);
        }
        law_leaf_size_is_recorded(bsize, rest, i, dy, dx, largest);
    }
}

} // verus!
