//! Prediction modes, reference frames, and the candidate vectors of a block.

use vstd::prelude::*;

use crate::arith::min_int;
use crate::tpl_model::Mv;

verus! {

pub const NONE_FRAME: i32 = -1;

pub const INTRA_FRAME: i32 = 0;

pub const LAST_FRAME: i32 = 1;

pub const LAST2_FRAME: i32 = 2;

pub const LAST3_FRAME: i32 = 3;

/// The last of the forward references.
pub const GOLDEN_FRAME: i32 = 4;

pub const BWDREF_FRAME: i32 = 5;

pub const ALTREF2_FRAME: i32 = 6;

pub const ALTREF_FRAME: i32 = 7;

/// Number of frames that a block can refer to, itself included.
pub const REF_FRAMES: usize = 8;

/// Number of single references and pairs of references.
pub const MODE_CTX_REF_FRAMES: usize = 29;

/// Most candidate vectors that are searched.
pub const MAX_REF_MV_SEARCH: usize = 3;

/// Number of prediction modes.
pub const MODE_COUNT: usize = 25;

/// A prediction mode.
#[derive(Clone, Copy, Debug, PartialEq, Eq, Structural)]
pub enum PredMode {
    Dc,
    V,
    H,
    D45,
    D135,
    D113,
    D157,
    D203,
    D67,
    Smooth,
    SmoothV,
    SmoothH,
    Paeth,
    NearestMv,
    NearMv,
    GlobalMv,
    NewMv,
    NearestNearestMv,
    NearNearMv,
    NearestNewMv,
    NewNearestMv,
    NearNewMv,
    NewNearMv,
    GlobalGlobalMv,
    NewNewMv,
}

impl PredMode {
    /// The mode's number.
    pub open spec fn index(self) -> int {
        match self {
            PredMode::Dc => 0,
            PredMode::V => 1,
            PredMode::H => 2,
            PredMode::D45 => 3,
            PredMode::D135 => 4,
            PredMode::D113 => 5,
            PredMode::D157 => 6,
            PredMode::D203 => 7,
            PredMode::D67 => 8,
            PredMode::Smooth => 9,
            PredMode::SmoothV => 10,
            PredMode::SmoothH => 11,
            PredMode::Paeth => 12,
            PredMode::NearestMv => 13,
            PredMode::NearMv => 14,
            PredMode::GlobalMv => 15,
            PredMode::NewMv => 16,
            PredMode::NearestNearestMv => 17,
            PredMode::NearNearMv => 18,
            PredMode::NearestNewMv => 19,
            PredMode::NewNearestMv => 20,
            PredMode::NearNewMv => 21,
            PredMode::NewNearMv => 22,
            PredMode::GlobalGlobalMv => 23,
            PredMode::NewNewMv => 24,
        }
    }

    /// The mode's number.
    pub fn to_i32(self) -> (r: i32)
        ensures
            r == self.index(),
            0 <= r < 25,
    {
        match self {
            PredMode::Dc => 0,
            PredMode::V => 1,
            PredMode::H => 2,
            PredMode::D45 => 3,
            PredMode::D135 => 4,
            PredMode::D113 => 5,
            PredMode::D157 => 6,
            PredMode::D203 => 7,
            PredMode::D67 => 8,
            PredMode::Smooth => 9,
            PredMode::SmoothV => 10,
            PredMode::SmoothH => 11,
            PredMode::Paeth => 12,
            PredMode::NearestMv => 13,
            PredMode::NearMv => 14,
            PredMode::GlobalMv => 15,
            PredMode::NewMv => 16,
            PredMode::NearestNearestMv => 17,
            PredMode::NearNearMv => 18,
            PredMode::NearestNewMv => 19,
            PredMode::NewNearestMv => 20,
            PredMode::NearNewMv => 21,
            PredMode::NewNearMv => 22,
            PredMode::GlobalGlobalMv => 23,
            PredMode::NewNewMv => 24,
        }
    }

    /// An inter mode with one reference.
    pub open spec fn is_single(self) -> bool {
        13 <= self.index() <= 16
    }

    /// See [`PredMode::is_single`].
    pub fn is_inter_singleref(self) -> (r: bool)
        ensures
            r == self.is_single(),
    {
        let m: i32 = self.to_i32();
        13 <= m && m <= 16
    }

    /// A half of the mode is the near mode.
    pub open spec fn near(self) -> bool {
        self is NearMv || self is NearNearMv || self is NearNewMv || self is NewNearMv
    }

    /// See [`PredMode::near`].
    pub fn have_nearmv(self) -> (r: bool)
        ensures
            r == self.near(),
    {
        matches!(
            self,
            PredMode::NearMv | PredMode::NearNearMv | PredMode::NearNewMv | PredMode::NewNearMv
        )
    }

    /// A half of the mode is the new mode.
    pub open spec fn has_new(self) -> bool {
        self is NewMv || self is NewNewMv || self is NearestNewMv || self is NewNearestMv
            || self is NearNewMv || self is NewNearMv
    }

    /// See [`PredMode::has_new`].
    pub fn have_newmv(self) -> (r: bool)
        ensures
            r == self.has_new(),
    {
        matches!(
            self,
            PredMode::NewMv | PredMode::NewNewMv | PredMode::NearestNewMv | PredMode::NewNearestMv
                | PredMode::NearNewMv | PredMode::NewNearMv
        )
    }

    /// The mode of the first or of the second half of a compound mode.
    pub open spec fn half(self, second: bool) -> Option<PredMode> {
        match self {
            PredMode::NearestNearestMv => Some(PredMode::NearestMv),
            PredMode::NearNearMv => Some(PredMode::NearMv),
            PredMode::NearestNewMv => Some(
                if second {
                    PredMode::NewMv
                } else {
                    PredMode::NearestMv
                },
            ),
            PredMode::NewNearestMv => Some(
                if second {
                    PredMode::NearestMv
                } else {
                    PredMode::NewMv
                },
            ),
            PredMode::NearNewMv => Some(
                if second {
                    PredMode::NewMv
                } else {
                    PredMode::NearMv
                },
            ),
            PredMode::NewNearMv => Some(
                if second {
                    PredMode::NearMv
                } else {
                    PredMode::NewMv
                },
            ),
            PredMode::GlobalGlobalMv => Some(PredMode::GlobalMv),
            PredMode::NewNewMv => Some(PredMode::NewMv),
            _ => None,
        }
    }
}

/// The mode of the first half of a compound mode.
pub fn compound_ref0_mode(mode: PredMode) -> (r: Option<PredMode>)
    ensures
        r == mode.half(false),
{
    match mode {
        PredMode::NearestNearestMv => Some(PredMode::NearestMv),
        PredMode::NearNearMv => Some(PredMode::NearMv),
        PredMode::NearestNewMv => Some(PredMode::NearestMv),
        PredMode::NewNearestMv => Some(PredMode::NewMv),
        PredMode::NearNewMv => Some(PredMode::NearMv),
        PredMode::NewNearMv => Some(PredMode::NewMv),
        PredMode::GlobalGlobalMv => Some(PredMode::GlobalMv),
        PredMode::NewNewMv => Some(PredMode::NewMv),
        _ => None,
    }
}

/// The mode of the second half of a compound mode.
pub fn compound_ref1_mode(mode: PredMode) -> (r: Option<PredMode>)
    ensures
        r == mode.half(true),
{
    match mode {
        PredMode::NearestNearestMv => Some(PredMode::NearestMv),
        PredMode::NearNearMv => Some(PredMode::NearMv),
        PredMode::NearestNewMv => Some(PredMode::NewMv),
        PredMode::NewNearestMv => Some(PredMode::NearestMv),
        PredMode::NearNewMv => Some(PredMode::NewMv),
        PredMode::NewNearMv => Some(PredMode::NearMv),
        PredMode::GlobalGlobalMv => Some(PredMode::GlobalMv),
        PredMode::NewNewMv => Some(PredMode::NewMv),
        _ => None,
    }
}

/// The halves of a compound mode are single modes.
pub proof fn law_halves_are_single(mode: PredMode, second: bool)
    ensures
        mode.half(second) is Some <==> mode.index() >= 17,
        mode.half(second) matches Some(h) ==> h.is_single(),
{
}

/// The candidate vectors of a reference or pair of references.
#[derive(Clone, Copy, Debug)]
pub struct RefMvRow {
    /// Number of candidates.
    pub count: usize,
    /// Vectors into the first reference.
    pub this_mv: [Mv; 4],
    /// Vectors into the second reference.
    pub comp_mv: [Mv; 4],
    pub weight: [u16; 4],
}

/// Number of candidates that a search tries, by mode and number of candidates.
pub open spec fn drl_count(mode: PredMode, count: int) -> int {
    if mode.near() && count > 2 {
        min_int(3, count - 1)
    } else if (mode is NewMv || mode is NewNewMv) && count > 1 {
        min_int(3, count)
    } else {
        1
    }
}

/// See [`drl_count`].
pub fn get_drl_refmv_count(mode: PredMode, count: usize) -> (r: usize)
    ensures
        r == drl_count(mode, count as int),
        1 <= r <= 3,
{
    if mode.have_nearmv() && count > 2 {
        if count - 1 < 3 {
            count - 1
        } else {
            3
        }
    } else if matches!(mode, PredMode::NewMv | PredMode::NewNewMv) && count > 1 {
        if count < 3 {
            count
        } else {
            3
        }
    } else {
        1
    }
}

/// The vector of a nearest or near half: a candidate, or the global vector
/// where there are too few.
pub open spec fn candidate_mv(row: RefMvRow, near: bool, second: bool, idx: int, global: Mv) -> Mv {
    let k = if near {
        idx + 1
    } else {
        0
    };
    if k < row.count {
        if second {
            row.comp_mv[k]
        } else {
            row.this_mv[k]
        }
    } else {
        global
    }
}

/// See [`candidate_mv`].
pub fn get_candidate_mv(row: &RefMvRow, near: bool, second: bool, idx: usize, global: Mv) -> (r: Mv)
    requires
        idx < 3,
    ensures
        r == candidate_mv(*row, near, second, idx as int, global),
{
    let k: usize = if near {
        idx + 1
    } else {
        0
    };
    if k < row.count {
        if second {
            row.comp_mv[k]
        } else {
            row.this_mv[k]
        }
    } else {
        global
    }
}

/// A mode with a new vector tries each candidate, three at most, and a near one
/// all but the nearest; the nearest and the global modes try one.
pub proof fn law_near_modes_leave_the_nearest(count: int)
    requires
        count >= 0,
    ensures
        drl_count(PredMode::NewMv, count) == (if count == 0 {
            1
        } else {
            min_int(count, 3)
        }),
        drl_count(PredMode::NearMv, count + 1) == drl_count(PredMode::NewMv, count),
        drl_count(PredMode::NearNearMv, count) == drl_count(PredMode::NearMv, count),
        drl_count(PredMode::NearNewMv, count) == drl_count(PredMode::NearMv, count),
        drl_count(PredMode::NewNearMv, count) == drl_count(PredMode::NearMv, count),
        drl_count(PredMode::NewNewMv, count) == drl_count(PredMode::NewMv, count),
        drl_count(PredMode::NearestMv, count) == 1,
        drl_count(PredMode::GlobalMv, count) == 1,
        drl_count(PredMode::NearestNearestMv, count) == 1,
        drl_count(PredMode::NearestNewMv, count) == 1,
        drl_count(PredMode::NewNearestMv, count) == 1,
        drl_count(PredMode::GlobalGlobalMv, count) == 1,
{
}

/// A compound mode has a new or a near vector exactly where one of its halves
/// has, and swapping the halves of a mixed mode gives the mode beside it.
pub proof fn law_compound_mode_is_its_halves(mode: PredMode)
    requires
        mode.index() >= 17,
    ensures
        mode.has_new() <==> mode.half(false) == Some(PredMode::NewMv) || mode.half(true) == Some(
            PredMode::NewMv,
        ),
        mode.near() <==> mode.half(false) == Some(PredMode::NearMv) || mode.half(true) == Some(
            PredMode::NearMv,
        ),
        mode is NearestNewMv ==> mode.half(false) == PredMode::NewNearestMv.half(true),
        mode is NearestNewMv ==> mode.half(true) == PredMode::NewNearestMv.half(false),
        mode is NearNewMv ==> mode.half(false) == PredMode::NewNearMv.half(true),
        mode is NearNewMv ==> mode.half(true) == PredMode::NewNearMv.half(false),
{
}

} // verus!
