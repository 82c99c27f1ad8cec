//! Decisions of the temporal dependency model on frames and groups: which
//! frames it covers, how long a group may be, and the quantizer of a frame.

use vstd::prelude::*;

use crate::arith::{max_int, min_int, trunc_div};
use crate::ref_gop::FrameUpdateType;
use crate::samples::abs_int;
use crate::tpl_model::{Mv, MAXQ, MAX_TPL_FRAME_IDX};

verus! {

/// Base-two logarithm of `n`, rounded down.
pub open spec fn log2_floor(n: int) -> int
    decreases n,
{
    if n <= 1 {
        0
    } else {
        1 + log2_floor(n / 2)
    }
}

/// Index of the highest set bit.
pub fn get_msb(n: u32) -> (r: u32)
    requires
        n != 0,
    ensures
        r == log2_floor(n as int),
        r < 32,
{
    let mut m: u32 = n;
    let mut r: u32 = 0;
    proof {
        assert(crate::arith::pow2i(31) == 0x8000_0000) by {
            reveal_with_fuel(crate::arith::pow2i, 32);
        }
        lemma_log2_bound(n as int, 31);
    }
    while m > 1
        invariant
            m >= 1,
            r + log2_floor(m as int) == log2_floor(n as int),
            log2_floor(n as int) <= 31,
            log2_floor(m as int) >= 0,
        decreases m,
    {
        proof {
            lemma_log2_nonneg(m as int / 2);
        }
        m = m / 2;
        r = r + 1;
    }
    r
}

proof fn lemma_log2_nonneg(n: int)
    ensures
        log2_floor(n) >= 0,
    decreases n,
{
    if n > 1 {
        lemma_log2_nonneg(n / 2);
    }
}

proof fn lemma_log2_bound(n: int, k: nat)
    requires
        n < 2 * crate::arith::pow2i(k as int),
    ensures
        0 <= log2_floor(n) <= k,
    decreases k,
{
    if n > 1 {
        if k > 0 {
            lemma_log2_bound(n / 2, (k - 1) as nat);
        }
    }
}

/// Bits of a level in the rate estimate: those of its magnitude plus one, and
/// one more where it is not zero.
pub open spec fn level_bits(level: int) -> int {
    log2_floor(abs_int(level) + 1) + 1 + (if level != 0 {
        1int
    } else {
        0
    })
}

/// Bits of the first `n` levels in scan order.
pub open spec fn scan_bits(qcoeff: Seq<i32>, scan: Seq<u16>, n: int) -> int
    decreases n,
{
    if n <= 0 {
        0
    } else {
        scan_bits(qcoeff, scan, n - 1) + level_bits(qcoeff[scan[n - 1] as int] as int)
    }
}

/// Estimated rate of the first `eob` levels of a block in scan order, in rate
/// units.
#[must_use]
pub fn rate_estimator(qcoeff: &[i32], eob: usize, scan: &[u16]) -> (r: i32)
    requires
        eob <= scan.len(),
        scan.len() <= 4096,
        forall|i: int| 0 <= i < eob ==> (#[trigger] scan[i]) < qcoeff.len(),
    ensures
        r == (1 + scan_bits(qcoeff@, scan@, eob as int)) * 512,
{
    let mut rate_cost: i32 = 1;
    for n in 0..eob
        invariant
            eob <= scan.len(),
            scan.len() <= 4096,
            forall|i: int| 0 <= i < eob ==> (#[trigger] scan[i]) < qcoeff.len(),
            rate_cost == 1 + scan_bits(qcoeff@, scan@, n as int),
            1 <= rate_cost <= 1 + 34 * n,
    {
        let level: i32 = qcoeff[scan[n] as usize];
        let magnitude: u32 = if level < 0 {
            (-(level as i64)) as u32
        } else {
            level as u32
        };
        let extra: i32 = if magnitude > 0 {
            1
        } else {
            0
        };
        rate_cost = rate_cost + get_msb(magnitude + 1) as i32 + 1 + extra;
    }
    rate_cost * 512
}

/// The group length that the model covers.
#[must_use]
pub fn get_gop_length(gf_group_size: i32) -> (r: i32)
    ensures
        r == min_int(gf_group_size as int, MAX_TPL_FRAME_IDX - 1),
{
    if gf_group_size < MAX_TPL_FRAME_IDX - 1 {
        gf_group_size
    } else {
        MAX_TPL_FRAME_IDX - 1
    }
}

/// What becomes of a group length.
#[derive(Clone, Copy, Debug, PartialEq, Eq, Structural)]
pub enum GopLengthVerdict {
    Shorten,
    Keep,
    /// Undecided: compute the figures again.
    Redo,
}

impl GopLengthVerdict {
    /// The verdict as a number.
    #[must_use]
    pub fn as_c_int(self) -> (r: i32)
        ensures
            r == match self {
                GopLengthVerdict::Shorten => 0int,
                GopLengthVerdict::Keep => 1,
                GopLengthVerdict::Redo => 2,
            },
    {
        match self {
            GopLengthVerdict::Shorten => 0,
            GopLengthVerdict::Keep => 1,
            GopLengthVerdict::Redo => 2,
        }
    }
}

/// The verdict of an evaluation mode, from its two tests: that the base layer
/// is clearly worth its length, and that it is clearly not. Only the second
/// mode leaves a group undecided between the two.
#[must_use]
pub fn gop_length_verdict(gop_eval: i32, worth: bool, not_worth: bool) -> (r: GopLengthVerdict)
    ensures
        r == if gop_eval < 1 || gop_eval > 3 {
            GopLengthVerdict::Redo
        } else if worth {
            GopLengthVerdict::Keep
        } else if gop_eval == 2 && !not_worth {
            GopLengthVerdict::Redo
        } else {
            GopLengthVerdict::Shorten
        },
{
    if gop_eval < 1 || gop_eval > 3 {
        GopLengthVerdict::Redo
    } else if worth {
        GopLengthVerdict::Keep
    } else if gop_eval == 2 && !not_worth {
        GopLengthVerdict::Redo
    } else {
        GopLengthVerdict::Shorten
    }
}

/// The model leaves out a frame: overlays always; with an approximate
/// evaluation frames of deep layers and those beyond the group length; with
/// fewer frames the leaves within it.
#[must_use]
pub fn skip_tpl_for_frame(
    gf_group_size: i32,
    frame_idx: i32,
    update_type: FrameUpdateType,
    layer_depth: i32,
    gop_eval: i32,
    approx_gop_eval: bool,
    reduce_num_frames: bool,
) -> (r: bool)
    ensures
        r == ({
            let gop_length = min_int(gf_group_size as int, MAX_TPL_FRAME_IDX - 1);
            let layers = if gop_eval == 2 {
                3int
            } else {
                2
            };
            ||| update_type == FrameUpdateType::IntnlOverlay
            ||| update_type == FrameUpdateType::Overlay
            ||| approx_gop_eval && (layer_depth > layers || frame_idx >= gop_length)
            ||| reduce_num_frames && update_type == FrameUpdateType::Lf && frame_idx < gop_length
        }),
{
    let num_arf_layers: i32 = if gop_eval == 2 {
        3
    } else {
        2
    };
    let gop_length: i32 = get_gop_length(gf_group_size);
    if update_type == FrameUpdateType::IntnlOverlay || update_type == FrameUpdateType::Overlay {
        return true;
    }
    if approx_gop_eval && (layer_depth > num_arf_layers || frame_idx >= gop_length) {
        return true;
    }
    reduce_num_frames && update_type == FrameUpdateType::Lf && frame_idx < gop_length
}

/// Distances, in eighths of a sample, below which two search centres count as
/// alike.
pub const MV_DIFF_THR: [i32; 3] = [1, 64, 128];

/// Two vectors are closer than `thr` in both components.
pub open spec fn alike(a: Mv, b: Mv, thr: int) -> bool {
    abs_int(a.col - b.col) < thr && abs_int(a.row - b.row) < thr
}

/// A search centre is close to one that is already queued.
#[must_use]
pub fn is_alike_mv(candidate: Mv, centers: &[Mv], skip_alike_starting_mv: usize) -> (r: bool)
    requires
        skip_alike_starting_mv < 3,
    ensures
        r == exists|i: int|
            0 <= i < centers.len() && alike(
                #[trigger] centers[i],
                candidate,
                MV_DIFF_THR[skip_alike_starting_mv as int] as int,
            ),
{
    let thr: i32 = MV_DIFF_THR[skip_alike_starting_mv];
    for i in 0..centers.len()
        invariant
            skip_alike_starting_mv < 3,
            thr == MV_DIFF_THR[skip_alike_starting_mv as int],
            forall|j: int| 0 <= j < i ==> !alike(#[trigger] centers[j], candidate, thr as int),
    {
        let dc: i32 = centers[i].col as i32 - candidate.col as i32;
        let dr: i32 = centers[i].row as i32 - candidate.row as i32;
        if -thr < dc && dc < thr && -thr < dr && dr < thr {
            assert(alike(centers[i as int], candidate, thr as int));
            return true;
        }
    }
    false
}

/// At level 0 only an identical vector is alike.
pub proof fn law_alike_at_level_0(a: Mv, b: Mv)
    ensures
        alike(a, b, MV_DIFF_THR[0] as int) <==> a == b,
{
}

/// The order of two sums of absolute differences.
#[must_use]
pub fn compare_sad(a: i32, b: i32) -> (r: core::cmp::Ordering)
    ensures
        r == if a < b {
            core::cmp::Ordering::Less
        } else if a > b {
            core::cmp::Ordering::Greater
        } else {
            core::cmp::Ordering::Equal
        },
{
    if a < b {
        core::cmp::Ordering::Less
    } else if a > b {
        core::cmp::Ordering::Greater
    } else {
        core::cmp::Ordering::Equal
    }
}

/// Samples to mode-info units, in whole pairs of them.
#[must_use]
pub fn pixels_to_mi(pixels: i32) -> (r: i32)
    requires
        pixels <= i32::MAX - 7,
    ensures
        r == 2 * ((pixels + 7) / 8),
{
    let x: i32 = pixels + 7;
    assert((x & !7i32) >> 2 == 2 * (x / 8)) by (bit_vector);
    (x & !7) >> 2
}

/// A mode-info column of the coded frame in the upscaled frame, to nearest.
#[must_use]
pub fn coded_to_superres_mi(mi_col: i32, denom: i32) -> (r: i32)
    requires
        i32::MIN <= mi_col * denom <= i32::MAX - 4,
    ensures
        r == trunc_div(mi_col * denom + 4, 8),
{
    let eighths: i32 = mi_col * denom + 4;
    if eighths < 0 {
        -((-eighths) / 8)
    } else {
        eighths / 8
    }
}

/// A quantizer index within its range.
pub open spec fn clamp_q(q: int) -> int {
    min_int(max_int(q, 0), MAXQ as int)
}

/// The first index from `q` downward that meets the target, or where the
/// range ends.
pub open spec fn scan_down(meets: Seq<bool>, q: int) -> int
    decreases q,
{
    if q <= 0 || meets[clamp_q(q)] {
        q
    } else {
        scan_down(meets, q - 1)
    }
}

/// The first index from `q` upward that meets the target, or where the range
/// ends.
pub open spec fn scan_up(meets: Seq<bool>, q: int) -> int
    decreases MAXQ - q,
{
    if q >= MAXQ || meets[clamp_q(q)] {
        q
    } else {
        scan_up(meets, q + 1)
    }
}

/// The quantizer index whose step first meets a target, searched from
/// `leaf_qindex` downward for a smaller step and upward otherwise. `meets`
/// tells for each index whether its step is at or beyond the target in the
/// direction of the search.
#[must_use]
pub fn scan_q_index(leaf_qindex: i32, finer: bool, meets: &[bool]) -> (r: i32)
    requires
        meets.len() == 256,
    ensures
        r == if finer {
            scan_down(meets@, leaf_qindex as int)
        } else {
            scan_up(meets@, leaf_qindex as int)
        },
{
    let mut q: i32 = leaf_qindex;
    if finer {
        while q > 0
            invariant_except_break
                meets.len() == 256,
                scan_down(meets@, leaf_qindex as int) == scan_down(meets@, q as int),
            ensures
                scan_down(meets@, leaf_qindex as int) == q,
            decreases q,
        {
            let i: usize = if q > MAXQ {
                255
            } else {
                q as usize
            };
            if meets[i] {
                break;
            }
            q = q - 1;
        }
    } else {
        while q < MAXQ
            invariant_except_break
                meets.len() == 256,
                scan_up(meets@, leaf_qindex as int) == scan_up(meets@, q as int),
            ensures
                scan_up(meets@, leaf_qindex as int) == q,
            decreases MAXQ - q,
        {
            let i: usize = if q < 0 {
                0
            } else {
                q as usize
            };
            if meets[i] {
                break;
            }
            q = q + 1;
        }
    }
    q
}

/// From an index in range the search stays in range, in its direction, and
/// stops at an index that meets the target or at the end of the range, having
/// passed none that does.
pub proof fn law_q_scan(meets: Seq<bool>, leaf: int)
    requires
        meets.len() == 256,
        0 <= leaf <= MAXQ,
    ensures
        ({
            let d = scan_down(meets, leaf);
            &&& 0 <= d <= leaf
            &&& d > 0 ==> meets[d]
            &&& forall|q: int| d < q <= leaf ==> !#[trigger] meets[q]
        }),
        ({
            let u = scan_up(meets, leaf);
            &&& leaf <= u <= MAXQ
            &&& u < MAXQ ==> meets[u]
            &&& forall|q: int| leaf <= q < u ==> !#[trigger] meets[q]
        }),
{
    lemma_scan_down(meets, leaf);
    lemma_scan_up(meets, leaf);
}

proof fn lemma_scan_down(meets: Seq<bool>, leaf: int)
    requires
        meets.len() == 256,
        0 <= leaf <= MAXQ,
    ensures
        ({
            let d = scan_down(meets, leaf);
            &&& 0 <= d <= leaf
            &&& d > 0 ==> meets[d]
            &&& forall|q: int| d < q <= leaf ==> !#[trigger] meets[q]
        }),
    decreases leaf,
{
    if leaf > 0 && !meets[leaf] {
        lemma_scan_down(meets, leaf - 1);
    }
}

proof fn lemma_scan_up(meets: Seq<bool>, leaf: int)
    requires
        meets.len() == 256,
        0 <= leaf <= MAXQ,
    ensures
        ({
            let u = scan_up(meets, leaf);
            &&& leaf <= u <= MAXQ
            &&& u < MAXQ ==> meets[u]
            &&& forall|q: int| leaf <= q < u ==> !#[trigger] meets[q]
        }),
    decreases MAXQ - leaf,
{
    if leaf < MAXQ && !meets[leaf] {
        lemma_scan_up(meets, leaf + 1);
    }
}

/// The highest set bit is that of the largest power of two in a number.
pub proof fn law_highest_bit_is_the_largest_power(n: int)
    requires
        n >= 1,
    ensures
        log2_floor(n) >= 0,
        crate::arith::pow2i(log2_floor(n)) <= n < 2 * crate::arith::pow2i(log2_floor(n)),
    decreases n,
{
    lemma_log2_nonneg(n);
    if n > 1 {
        lemma_log2_nonneg(n / 2);
        law_highest_bit_is_the_largest_power(n / 2);
        assert(crate::arith::pow2i(log2_floor(n)) == 2 * crate::arith::pow2i(log2_floor(n / 2)));
    } else {
        assert(crate::arith::pow2i(0) == 1);
    }
}

proof fn lemma_log2_mono(a: int, b: int)
    requires
        a <= b,
    ensures
        log2_floor(a) <= log2_floor(b),
    decreases b,
{
    lemma_log2_nonneg(b);
    if a > 1 {
        lemma_log2_mono(a / 2, b / 2);
    }
}

/// A level costs as many bits as its opposite and no less than a smaller one;
/// zero costs one bit, and any other level at least three.
pub proof fn law_larger_level_costs_no_less(a: int, b: int)
    requires
        abs_int(a) <= abs_int(b),
    ensures
        level_bits(a) <= level_bits(b),
        level_bits(-a) == level_bits(a),
        level_bits(0) == 1,
        a != 0 ==> level_bits(a) >= 3,
{
    lemma_log2_mono(abs_int(a) + 1, abs_int(b) + 1);
    assert(log2_floor(1) == 0);
    assert(log2_floor(2) == 1) by {
        assert(log2_floor(2) == 1 + log2_floor(1));
    }
    if a != 0 {
        lemma_log2_mono(2, abs_int(a) + 1);
    }
}

/// Every level up to the last one coded counts once: a block of zeros costs one
/// bit for each, and one level more adds that level's bits.
pub proof fn law_each_level_counts_once(
    qcoeff: Seq<i32>,
    other: Seq<i32>,
    scan: Seq<u16>,
    n: int,
    at: int,
)
    requires
        0 <= at < n <= scan.len(),
        qcoeff.len() == other.len(),
        forall|i: int| 0 <= i < n ==> (#[trigger] scan[i]) < qcoeff.len(),
        forall|i: int| 0 <= i < n && i != at ==> (#[trigger] scan[i]) != scan[at],
        forall|k: int|
            0 <= k < qcoeff.len() && k != scan[at] ==> other[k] == #[trigger] qcoeff[k],
    ensures
        scan_bits(other, scan, n) - scan_bits(qcoeff, scan, n) == level_bits(
            other[scan[at] as int] as int,
        ) - level_bits(qcoeff[scan[at] as int] as int),
        (forall|k: int| 0 <= k < qcoeff.len() ==> #[trigger] qcoeff[k] == 0) ==> scan_bits(
            qcoeff,
            scan,
            n,
        ) == n,
{
    lemma_scan_bits_differ(qcoeff, other, scan, n, at);
    if forall|k: int| 0 <= k < qcoeff.len() ==> #[trigger] qcoeff[k] == 0 {
        lemma_scan_bits_of_zeros(qcoeff, scan, n);
    }
}

proof fn lemma_scan_bits_differ(
    qcoeff: Seq<i32>,
    other: Seq<i32>,
    scan: Seq<u16>,
    n: int,
    at: int,
)
    requires
        0 <= at,
        0 <= n <= scan.len(),
        at < scan.len(),
        qcoeff.len() == other.len(),
        forall|i: int| 0 <= i < n ==> (#[trigger] scan[i]) < qcoeff.len(),
        forall|i: int| 0 <= i < n && i != at ==> (#[trigger] scan[i]) != scan[at],
        forall|k: int|
            0 <= k < qcoeff.len() && k != scan[at] ==> other[k] == #[trigger] qcoeff[k],
    ensures
        scan_bits(other, scan, n) - scan_bits(qcoeff, scan, n) == if at < n {
            level_bits(other[scan[at] as int] as int) - level_bits(qcoeff[scan[at] as int] as int)
        } else {
            0
        },
    decreases n,
{
    if n > 0 {
        lemma_scan_bits_differ(qcoeff, other, scan, n - 1, at);
        if n - 1 != at {
            let k = scan[n - 1] as int;
            assert(other[k] == qcoeff[k]);
        }
    }
}

proof fn lemma_scan_bits_of_zeros(qcoeff: Seq<i32>, scan: Seq<u16>, n: int)
    requires
        0 <= n <= scan.len(),
        forall|i: int| 0 <= i < n ==> (#[trigger] scan[i]) < qcoeff.len(),
        forall|k: int| 0 <= k < qcoeff.len() ==> #[trigger] qcoeff[k] == 0,
    ensures
        scan_bits(qcoeff, scan, n) == n,
    decreases n,
{
    if n > 0 {
        lemma_scan_bits_of_zeros(qcoeff, scan, n - 1);
        law_larger_level_costs_no_less(0, 0);
        assert(qcoeff[scan[n - 1] as int] == 0);
    }
}

} // verus!
