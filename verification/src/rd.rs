//! Rate-distortion cost.

use vstd::prelude::*;

verus! {

/// Bound on a distortion for which the cost is representable.
pub const MAX_DIST: i64 = 0x80_0000_0000_0000;

/// The cost of `rate` (in 1/512 bits) and `dist` under the multiplier
/// `rdmult`: the rounded product of rate and multiplier over 512, plus 128
/// times the distortion.
pub open spec fn rd_value(rdmult: int, rate: int, dist: int) -> int {
    (rate * rdmult + 256) / 512 + 128 * dist
}

/// The rate-distortion cost.
pub fn rdcost(rdmult: i32, rate: i32, dist: i64) -> (r: i64)
    requires
        -MAX_DIST <= dist <= MAX_DIST,
    ensures
        r == rd_value(rdmult as int, rate as int, dist as int),
{
    assert(-0x4000_0000_0000_0000 <= rate * rdmult <= 0x4000_0000_0000_0000) by (nonlinear_arith)
        requires
            -0x8000_0000 <= rate <= 0x7fff_ffff,
            -0x8000_0000 <= rdmult <= 0x7fff_ffff,
    ;
    let scaled: i64 = rate as i64 * rdmult as i64 + 256;
    assert(scaled >> 9 == scaled / 512) by (bit_vector);
    (scaled >> 9) + 128 * dist
}

/// With a non-negative multiplier the cost grows with the rate and with the
/// distortion.
pub proof fn law_rd_value_monotone(rdmult: int, rate1: int, dist1: int, rate2: int, dist2: int)
    requires
        rdmult >= 0,
        rate1 <= rate2,
        dist1 <= dist2,
    ensures
        rd_value(rdmult, rate1, dist1) <= rd_value(rdmult, rate2, dist2),
{
    assert(rate1 * rdmult <= rate2 * rdmult) by (nonlinear_arith)
        requires
            rdmult >= 0,
            rate1 <= rate2,
    ;
}

/// A cost with only a rate is bounded by the rate-only cost of any candidate
/// that has a distortion on top.
pub proof fn law_rate_alone_is_a_lower_bound(rdmult: int, rate: int, dist: int)
    requires
        dist >= 0,
    ensures
        rd_value(rdmult, rate, 0) <= rd_value(rdmult, rate, dist),
{
}

/// A bit of rate, which is 512 units, costs as much as the multiplier says, and
/// distortion always weighs 128; a cost is a whole number within half a unit of
/// that.
pub proof fn law_cost_of_a_bit(rdmult: int, rate: int, dist: int, bits: int, more: int)
    ensures
        rd_value(rdmult, rate + 512 * bits, dist + more) == rd_value(rdmult, rate, dist) + bits
            * rdmult + 128 * more,
        -256 <= 512 * (rd_value(rdmult, rate, dist) - 128 * dist) - rate * rdmult <= 256,
{
    assert((rate + 512 * bits) * rdmult == rate * rdmult + 512 * (bits * rdmult))
        by (nonlinear_arith);
}

} // verus!
