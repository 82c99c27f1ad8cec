//! The level of a sequence: the lowest whose limits the frame size and rate
//! keep.

use vstd::prelude::*;

verus! {

pub const SEQ_LEVEL_2_0: i32 = 0;

pub const SEQ_LEVEL_2_1: i32 = 1;

pub const SEQ_LEVEL_3_0: i32 = 4;

pub const SEQ_LEVEL_3_1: i32 = 5;

/// The first level that has a tier.
pub const SEQ_LEVEL_4_0: i32 = 8;

pub const SEQ_LEVEL_4_1: i32 = 9;

pub const SEQ_LEVEL_5_0: i32 = 12;

pub const SEQ_LEVEL_5_1: i32 = 13;

pub const SEQ_LEVEL_5_2: i32 = 14;

pub const SEQ_LEVEL_6_0: i32 = 16;

pub const SEQ_LEVEL_6_1: i32 = 17;

pub const SEQ_LEVEL_6_2: i32 = 18;

/// Number of levels; a target from here on prescribes nothing.
pub const SEQ_LEVELS: i32 = 28;

/// No level has these limits.
pub const SEQ_LEVEL_MAX: i32 = 31;

/// Number of levels that a frame can be matched to.
pub const LEVEL_COUNT: usize = 12;

/// The levels, in ascending order.
pub const LEVEL_INDEX: [i32; 12] = [
    SEQ_LEVEL_2_0,
    SEQ_LEVEL_2_1,
    SEQ_LEVEL_3_0,
    SEQ_LEVEL_3_1,
    SEQ_LEVEL_4_0,
    SEQ_LEVEL_4_1,
    SEQ_LEVEL_5_0,
    SEQ_LEVEL_5_1,
    SEQ_LEVEL_5_2,
    SEQ_LEVEL_6_0,
    SEQ_LEVEL_6_1,
    SEQ_LEVEL_6_2,
];

/// Width of the frame that gives a level its limits.
pub const LEVEL_WIDTH: [i32; 12] = [
    512, 704, 1088, 1376, 2048, 2048, 4096, 4096, 4096, 8192, 8192, 8192,
];

/// Its height.
pub const LEVEL_HEIGHT: [i32; 12] = [
    288, 396, 612, 774, 1152, 1152, 2176, 2176, 2176, 4352, 4352, 4352,
];

/// Its frames per second.
pub const LEVEL_FPS: [i32; 12] = [30, 30, 30, 30, 30, 60, 30, 60, 120, 30, 60, 120];

/// How many times its width or height a frame may have.
pub const LEVEL_DIM_MULT: [i32; 12] = [4, 4, 4, 4, 3, 3, 2, 2, 2, 2, 2, 2];

/// A frame size keeps the limits of a level.
pub open spec fn size_matches(
    width: int,
    height: int,
    lvl_width: int,
    lvl_height: int,
    lvl_dim_mult: int,
) -> bool {
    &&& width * height <= lvl_width * lvl_height
    &&& width <= lvl_width * lvl_dim_mult
    &&& height <= lvl_height * lvl_dim_mult
}

/// A frame keeps the limits of a level. `rate_fits` tells whether its samples
/// per second do.
pub fn does_level_match(
    width: i32,
    height: i32,
    lvl_width: i32,
    lvl_height: i32,
    lvl_dim_mult: i32,
    rate_fits: bool,
) -> (r: bool)
    requires
        i32::MIN <= lvl_width * lvl_dim_mult <= i32::MAX,
        i32::MIN <= lvl_height * lvl_dim_mult <= i32::MAX,
    ensures
        r == (rate_fits && size_matches(
            width as int,
            height as int,
            lvl_width as int,
            lvl_height as int,
            lvl_dim_mult as int,
        )),
{
    proof {
        lemma_product(width as int, height as int);
        lemma_product(lvl_width as int, lvl_height as int);
    }
    let lvl_luma_pels: i64 = lvl_width as i64 * lvl_height as i64;
    let luma_pels: i64 = width as i64 * height as i64;
    luma_pels <= lvl_luma_pels && rate_fits && width <= lvl_width * lvl_dim_mult && height
        <= lvl_height * lvl_dim_mult
}

proof fn lemma_product(a: int, b: int)
    requires
        i32::MIN <= a <= i32::MAX,
        i32::MIN <= b <= i32::MAX,
    ensures
        -0x4000_0000_0000_0000 <= a * b <= 0x4000_0000_0000_0000,
{
    assert(-0x4000_0000_0000_0000 <= a * b <= 0x4000_0000_0000_0000) by (nonlinear_arith)
        requires
            -0x8000_0000 <= a <= 0x7fff_ffff,
            -0x8000_0000 <= b <= 0x7fff_ffff,
    ;
}

/// A frame keeps the limits of level `i`.
pub open spec fn keeps_level(width: int, height: int, rate_fits: Seq<bool>, i: int) -> bool {
    rate_fits[i] && size_matches(
        width,
        height,
        LEVEL_WIDTH[i] as int,
        LEVEL_HEIGHT[i] as int,
        LEVEL_DIM_MULT[i] as int,
    )
}

/// The first level from `i` on that a frame keeps.
pub open spec fn first_level(width: int, height: int, rate_fits: Seq<bool>, i: int) -> int
    decreases 12 - i,
{
    if i >= 12 {
        SEQ_LEVEL_MAX as int
    } else if keeps_level(width, height, rate_fits, i) {
        LEVEL_INDEX[i] as int
    } else {
        first_level(width, height, rate_fits, i + 1)
    }
}

/// The lowest level that a frame keeps. `rate_fits` tells for each level
/// whether the samples per second stay within its rate.
pub fn inferred_seq_level_from_dims(width: i32, height: i32, rate_fits: &[bool; 12]) -> (r: i32)
    ensures
        r == first_level(width as int, height as int, rate_fits@, 0),
{
    for i in 0usize..12
        invariant
            first_level(width as int, height as int, rate_fits@, 0) == first_level(
                width as int,
                height as int,
                rate_fits@,
                i as int,
            ),
    {
        assert(0 < LEVEL_WIDTH[i as int] <= 8192 && 0 < LEVEL_HEIGHT[i as int] <= 8192 && 0
            < LEVEL_DIM_MULT[i as int] <= 4);
        let (w, h, m) = (LEVEL_WIDTH[i], LEVEL_HEIGHT[i], LEVEL_DIM_MULT[i]);
        assert(0 <= w * m <= 0x8000 && 0 <= h * m <= 0x8000) by (nonlinear_arith)
            requires
                0 < w <= 8192,
                0 < h <= 8192,
                0 < m <= 4,
        ;
        if does_level_match(width, height, w, h, m, rate_fits[i]) {
            return LEVEL_INDEX[i];
        }
    }
    SEQ_LEVEL_MAX
}

/// The level that is coded: the target where it prescribes a higher one.
pub fn seq_header_seq_level_idx(
    width: i32,
    height: i32,
    rate_fits: &[bool; 12],
    target_seq_level_idx: i32,
) -> (r: i32)
    ensures
        r == ({
            let level = first_level(width as int, height as int, rate_fits@, 0);
            if level < target_seq_level_idx < SEQ_LEVELS {
                target_seq_level_idx as int
            } else {
                level
            }
        }),
{
    let level: i32 = inferred_seq_level_from_dims(width, height, rate_fits);
    if target_seq_level_idx < SEQ_LEVELS && target_seq_level_idx > level {
        target_seq_level_idx
    } else {
        level
    }
}

/// A frame keeps the level it is given, and none below it.
pub proof fn law_lowest_level(width: int, height: int, rate_fits: Seq<bool>, i: int, k: int)
    requires
        0 <= i <= k < 12,
        first_level(width, height, rate_fits, i) == LEVEL_INDEX[k],
    ensures
        keeps_level(width, height, rate_fits, k),
        forall|j: int| i <= j < k ==> !#[trigger] keeps_level(width, height, rate_fits, j),
    decreases 12 - i,
{
    if keeps_level(width, height, rate_fits, i) {
        assert(LEVEL_INDEX[i] == LEVEL_INDEX[k] ==> i == k);
    } else if i < k {
        law_lowest_level(width, height, rate_fits, i + 1, k);
    } else {
        lemma_later_level(width, height, rate_fits, i + 1, i);
    }
}

proof fn lemma_later_level(width: int, height: int, rate_fits: Seq<bool>, i: int, k: int)
    requires
        0 <= k < i <= 12,
    ensures
        first_level(width, height, rate_fits, i) > LEVEL_INDEX[k],
    decreases 12 - i,
{
    if i < 12 {
        lemma_later_level(width, height, rate_fits, i + 1, k);
        assert(LEVEL_INDEX[k] < LEVEL_INDEX[i]);
    } else {
        assert(LEVEL_INDEX[k] <= 18);
    }
}

/// A frame of a level's own size keeps the level, upright too.
pub proof fn law_own_size_is_kept(i: int)
    requires
        0 <= i < 12,
    ensures
        size_matches(
            LEVEL_WIDTH[i] as int,
            LEVEL_HEIGHT[i] as int,
            LEVEL_WIDTH[i] as int,
            LEVEL_HEIGHT[i] as int,
            LEVEL_DIM_MULT[i] as int,
        ),
        size_matches(
            LEVEL_HEIGHT[i] as int,
            LEVEL_WIDTH[i] as int,
            LEVEL_WIDTH[i] as int,
            LEVEL_HEIGHT[i] as int,
            LEVEL_DIM_MULT[i] as int,
        ),
{
    let (w, h, m) = (LEVEL_WIDTH[i] as int, LEVEL_HEIGHT[i] as int, LEVEL_DIM_MULT[i] as int);
    assert(m == 2 || m == 3 || m == 4);
    assert(w <= 2 * h && h <= w && 0 < h);
    assert(2 * h <= h * m && w <= w * m && 2 * w <= w * m) by (nonlinear_arith)
        requires
            2 <= m,
            0 < h <= w,
    ;
    assert(h * w == w * h) by (nonlinear_arith);
}

/// A smaller frame keeps every level that a larger one does, and a frame that
/// keeps the size of a level keeps that of every higher one.
pub proof fn law_smaller_frame_keeps_the_level(
    w: int,
    h: int,
    width: int,
    height: int,
    i: int,
    j: int,
)
    requires
        0 <= w <= width,
        0 <= h <= height,
        0 <= i <= j < 12,
        size_matches(
            width,
            height,
            LEVEL_WIDTH[i] as int,
            LEVEL_HEIGHT[i] as int,
            LEVEL_DIM_MULT[i] as int,
        ),
    ensures
        size_matches(
            w,
            h,
            LEVEL_WIDTH[j] as int,
            LEVEL_HEIGHT[j] as int,
            LEVEL_DIM_MULT[j] as int,
        ),
{
    assert(w * h <= width * height) by (nonlinear_arith)
        requires
            0 <= w <= width,
            0 <= h <= height,
    ;
    lemma_limits(i);
    lemma_limits(j);
    let (lw, lh) = (LEVEL_WIDTH[i] as int, LEVEL_HEIGHT[i] as int);
    let (kw, kh) = (LEVEL_WIDTH[j] as int, LEVEL_HEIGHT[j] as int);
    assert(0 <= lw <= kw && 0 <= lh <= kh);
    assert(lw * lh <= kw * kh) by (nonlinear_arith)
        requires
            0 <= lw <= kw,
            0 <= lh <= kh,
    ;
}

/// The longest sides that the levels allow.
proof fn lemma_limits(i: int)
    requires
        0 <= i < 12,
    ensures
        ({
            let (w, h) = (
                LEVEL_WIDTH[i] * LEVEL_DIM_MULT[i],
                LEVEL_HEIGHT[i] * LEVEL_DIM_MULT[i],
            );
            &&& w == if i == 0 {
                2048int
            } else if i == 1 {
                2816
            } else if i == 2 {
                4352
            } else if i == 3 {
                5504
            } else if i <= 5 {
                6144
            } else if i <= 8 {
                8192
            } else {
                16384
            }
            &&& h == if i == 0 {
                1152int
            } else if i == 1 {
                1584
            } else if i == 2 {
                2448
            } else if i == 3 {
                3096
            } else if i <= 5 {
                3456
            } else if i <= 8 {
                4352
            } else {
                8704
            }
        }),
{
    let m = LEVEL_DIM_MULT[i] as int;
    let (w, h) = (LEVEL_WIDTH[i] as int, LEVEL_HEIGHT[i] as int);
    assert(w * m == w * 2 || m != 2) by (nonlinear_arith);
    assert(w * m == w * 3 || m != 3) by (nonlinear_arith);
    assert(w * m == w * 4 || m != 4) by (nonlinear_arith);
    assert(h * m == h * 2 || m != 2) by (nonlinear_arith);
    assert(h * m == h * 3 || m != 3) by (nonlinear_arith);
    assert(h * m == h * 4 || m != 4) by (nonlinear_arith);
}

} // verus!
