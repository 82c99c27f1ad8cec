//! Block sizes and the tables that are indexed by them.
//!
//! A block size is an index into the AV1 list of block sizes: the square and
//! two-to-one sizes from 4x4 up to 128x128, followed by the four-to-one sizes.

use vstd::prelude::*;

verus! {

pub const BLOCK_4X4: usize = 0;

pub const BLOCK_8X8: usize = 3;

pub const BLOCK_16X16: usize = 6;

pub const BLOCK_16X32: usize = 7;

pub const BLOCK_32X16: usize = 8;

pub const BLOCK_32X32: usize = 9;

pub const BLOCK_32X64: usize = 10;

pub const BLOCK_64X32: usize = 11;

pub const BLOCK_64X64: usize = 12;

pub const BLOCK_64X128: usize = 13;

pub const BLOCK_128X64: usize = 14;

pub const BLOCK_128X128: usize = 15;

/// Number of block sizes.
pub const BLOCK_SIZES_ALL: usize = 22;

/// Block width in units of four luma samples.
pub const MI_SIZE_WIDE_B: [usize; 22] = [
    1, 1, 2, 2, 2, 4, 4, 4, 8, 8, 8, 16, 16, 16, 32, 32, 1, 4, 2, 8, 4, 16,
];

/// Block height in units of four luma samples.
pub const MI_SIZE_HIGH_B: [usize; 22] = [
    1, 2, 1, 2, 4, 2, 4, 8, 4, 8, 16, 8, 16, 32, 16, 32, 4, 1, 8, 2, 16, 4,
];

/// Block width in luma samples.
pub const BLK_W_B: [usize; 22] = [
    4, 4, 8, 8, 8, 16, 16, 16, 32, 32, 32, 64, 64, 64, 128, 128, 4, 16, 8, 32, 16, 64,
];

/// Block height in luma samples.
pub const BLK_H_B: [usize; 22] = [
    4, 8, 4, 8, 16, 8, 16, 32, 16, 32, 64, 32, 64, 128, 64, 128, 16, 4, 32, 8, 64, 16,
];

/// The block sizes the partition tree descends through.
pub open spec fn is_square_node(bsize: int) -> bool {
    bsize == 3 || bsize == 6 || bsize == 9 || bsize == 12 || bsize == 15
}

/// Width in samples is four times the width in mode-info units, and likewise
/// for the height; every block spans between one and thirty-two units.
pub proof fn law_block_dimensions(bsize: int)
    requires
        0 <= bsize < BLOCK_SIZES_ALL,
    ensures
        BLK_W_B[bsize] == 4 * MI_SIZE_WIDE_B[bsize],
        BLK_H_B[bsize] == 4 * MI_SIZE_HIGH_B[bsize],
        1 <= MI_SIZE_WIDE_B[bsize] <= 32,
        1 <= MI_SIZE_HIGH_B[bsize] <= 32,
        is_square_node(bsize) ==> MI_SIZE_WIDE_B[bsize] == MI_SIZE_HIGH_B[bsize],
{
}

} // verus!
