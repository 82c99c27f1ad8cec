//! The frame flags that are reported to the caller, one bit each.

use vstd::prelude::*;

verus! {

pub const KEY: u32 = 1;

pub const GOLDEN: u32 = 2;

pub const BWDREF: u32 = 4;

pub const ALTREF: u32 = 8;

pub const INTRAONLY: u32 = 16;

pub const SWITCH: u32 = 32;

pub const ERROR_RESILIENT: u32 = 64;

} // verus!
