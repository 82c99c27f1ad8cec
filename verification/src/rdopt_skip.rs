//! Which modes and pairs of references the inter search leaves out.

use vstd::prelude::*;

use crate::arith::{min_int, trunc_div};
use crate::block::{MI_SIZE_HIGH_B, MI_SIZE_WIDE_B};
use crate::pred_mode::{
    compound_ref0_mode,
    PredMode,
    ALTREF2_FRAME,
    BWDREF_FRAME,
    GOLDEN_FRAME,
    INTRA_FRAME,
    LAST2_FRAME,
    LAST3_FRAME,
    LAST_FRAME,
};

verus! {

/// No second reference.
pub const NONE_FRAME: i32 = -1;

/// Which references a search may combine.
#[derive(Clone, Copy, Debug, PartialEq, Eq, Structural)]
pub enum RefSet {
    /// All.
    Full,
    /// Sixteen combinations.
    Reduced,
    /// Four single references.
    RealTime,
}

/// First and second references of the reduced set.
pub const REDUCED_REF_COMBOS: [[i32; 2]; 16] = [
    [1, -1],
    [7, -1],
    [1, 7],
    [4, -1],
    [0, -1],
    [4, 7],
    [1, 4],
    [1, 0],
    [1, 5],
    [1, 3],
    [4, 5],
    [4, 0],
    [5, -1],
    [5, 7],
    [7, 0],
    [5, 0],
];

/// First and second references of the real-time set.
pub const REAL_TIME_REF_COMBOS: [[i32; 2]; 4] = [[1, -1], [7, -1], [4, -1], [0, -1]];

/// What the search leaves out.
#[derive(Clone, Copy, Debug, PartialEq, Eq)]
pub struct ModeSkipMask {
    /// For each first reference a bit for each mode that is left out.
    pub pred_modes: [u32; 8],
    /// For each first reference, and each second one from none on, whether the
    /// pair is left out.
    pub ref_combo: [[bool; 9]; 8],
}

impl ModeSkipMask {
    /// A pair of references is left out.
    pub open spec fn off(self, ref1: int, ref2: int) -> bool {
        self.ref_combo[ref1][ref2 + 1]
    }

    /// The two masks agree but for the pairs that satisfy `f`, which are left
    /// out in `m` where `v`, and not where not.
    pub open spec fn differs_at(
        self,
        m: ModeSkipMask,
        f: spec_fn(int, int) -> bool,
        v: bool,
    ) -> bool {
        &&& m.pred_modes == self.pred_modes
        &&& forall|a: int, b: int|
            0 <= a < 8 && -1 <= b < 8 ==> #[trigger] m.off(a, b) == if f(a, b) {
                v
            } else {
                self.off(a, b)
            }
    }
}

impl Default for ModeSkipMask {
    /// Nothing is left out.
    fn default() -> (r: Self)
        ensures
            forall|a: int| 0 <= a < 8 ==> #[trigger] r.pred_modes[a] == 0,
            forall|a: int, b: int| 0 <= a < 8 && -1 <= b < 8 ==> !#[trigger] r.off(a, b),
    {
        ModeSkipMask { pred_modes: [0; 8], ref_combo: [[false; 9]; 8] }
    }
}

impl ModeSkipMask {
    /// The pair of references is left out.
    pub fn is_disabled(&self, ref1: i32, ref2: i32) -> (r: bool)
        requires
            0 <= ref1 < 8,
            -1 <= ref2 < 8,
        ensures
            r == self.off(ref1 as int, ref2 as int),
    {
        self.ref_combo[ref1 as usize][(ref2 + 1) as usize]
    }

    /// Leave out a pair of references.
    pub fn disable_pair(&mut self, ref1: i32, ref2: i32)
        requires
            0 <= ref1 < 8,
            -1 <= ref2 < 8,
        ensures
            old(self).differs_at(
                *final(self),
                |a: int, b: int| a == ref1 && b == ref2,
                true,
            ),
    {
        self.ref_combo[ref1 as usize][(ref2 + 1) as usize] = true;
    }

    /// Let a pair of references in.
    pub fn enable_pair(&mut self, ref1: i32, ref2: i32)
        requires
            0 <= ref1 < 8,
            -1 <= ref2 < 8,
        ensures
            old(self).differs_at(
                *final(self),
                |a: int, b: int| a == ref1 && b == ref2,
                false,
            ),
    {
        self.ref_combo[ref1 as usize][(ref2 + 1) as usize] = false;
    }

    /// Leave out a reference as the first one, whatever the second. As a
    /// second reference it stays.
    pub fn disable_reference(&mut self, r: i32)
        requires
            0 <= r < 8,
        ensures
            old(self).differs_at(*final(self), |a: int, b: int| a == r, true),
    {
        self.ref_combo[r as usize] = [true; 9];
    }

    /// Leave out all inter references but the alternate one, as first
    /// references.
    pub fn disable_inter_references_except_altref(&mut self)
        ensures
            old(self).differs_at(*final(self), |a: int, b: int| 1 <= a <= 6, true),
    {
        let ghost m0 = *self;
        self.disable_reference(LAST_FRAME);
        self.disable_reference(LAST2_FRAME);
        self.disable_reference(LAST3_FRAME);
        self.disable_reference(GOLDEN_FRAME);
        self.disable_reference(BWDREF_FRAME);
        self.disable_reference(ALTREF2_FRAME);
    }
}

/// A pair of references is in a set.
pub open spec fn in_ref_set(ref_set: RefSet, a: int, b: int) -> bool {
    match ref_set {
        RefSet::Full => true,
        RefSet::Reduced => exists|i: int|
            0 <= i < 16 && a == (#[trigger] REDUCED_REF_COMBOS[i])[0] && b == REDUCED_REF_COMBOS[i][1],
        RefSet::RealTime => exists|i: int|
            0 <= i < 4 && a == (#[trigger] REAL_TIME_REF_COMBOS[i])[0] && b
                == REAL_TIME_REF_COMBOS[i][1],
    }
}

impl ModeSkipMask {
    /// The mask that leaves out all pairs that are not in a set.
    pub fn default_for(ref_set: RefSet) -> (r: Self)
        ensures
            forall|a: int| 0 <= a < 8 ==> #[trigger] r.pred_modes[a] == 0,
            forall|a: int, b: int|
                0 <= a < 8 && -1 <= b < 8 ==> #[trigger] r.off(a, b) == !in_ref_set(ref_set, a, b),
    {
        let mut mask = Self::default();
        if ref_set == RefSet::Full {
            return mask;
        }
        mask.ref_combo = [[true; 9]; 8];
        if ref_set == RefSet::Reduced {
            for i in 0usize..16
                invariant
                    forall|a: int| 0 <= a < 8 ==> #[trigger] mask.pred_modes[a] == 0,
                    forall|a: int, b: int|
                        0 <= a < 8 && -1 <= b < 8 ==> #[trigger] mask.off(a, b) == !(exists|k: int|
                            0 <= k < i && a == (#[trigger] REDUCED_REF_COMBOS[k])[0] && b
                                == REDUCED_REF_COMBOS[k][1]),
            {
                let c: [i32; 2] = REDUCED_REF_COMBOS[i];
                assert(0 <= c[0] < 8 && -1 <= c[1] < 8);
                let ghost m0 = mask;
                mask.enable_pair(c[0], c[1]);
                assert forall|a: int, b: int| 0 <= a < 8 && -1 <= b < 8 implies #[trigger] mask.off(
                    a,
                    b,
                ) == !(exists|k: int|
                    0 <= k < i + 1 && a == (#[trigger] REDUCED_REF_COMBOS[k])[0] && b
                        == REDUCED_REF_COMBOS[k][1]) by {
                    assert(mask.off(a, b) == if a == c[0] && b == c[1] {
                        false
                    } else {
                        m0.off(a, b)
                    });
                    if a == c[0] && b == c[1] {
                        assert(a == REDUCED_REF_COMBOS[i as int][0]);
                    }
                }
            }
        } else {
            for i in 0usize..4
                invariant
                    forall|a: int| 0 <= a < 8 ==> #[trigger] mask.pred_modes[a] == 0,
                    forall|a: int, b: int|
                        0 <= a < 8 && -1 <= b < 8 ==> #[trigger] mask.off(a, b) == !(exists|k: int|
                            0 <= k < i && a == (#[trigger] REAL_TIME_REF_COMBOS[k])[0] && b
                                == REAL_TIME_REF_COMBOS[k][1]),
            {
                let c: [i32; 2] = REAL_TIME_REF_COMBOS[i];
                assert(0 <= c[0] < 8 && -1 <= c[1] < 8);
                let ghost m0 = mask;
                mask.enable_pair(c[0], c[1]);
                assert forall|a: int, b: int| 0 <= a < 8 && -1 <= b < 8 implies #[trigger] mask.off(
                    a,
                    b,
                ) == !(exists|k: int|
                    0 <= k < i + 1 && a == (#[trigger] REAL_TIME_REF_COMBOS[k])[0] && b
                        == REAL_TIME_REF_COMBOS[k][1]) by {
                    assert(mask.off(a, b) == if a == c[0] && b == c[1] {
                        false
                    } else {
                        m0.off(a, b)
                    });
                    if a == c[0] && b == c[1] {
                        assert(a == REAL_TIME_REF_COMBOS[i as int][0]);
                    }
                }
            }
        }
        mask
    }

    /// A mode is left out for a pair of references: by the bit of the mode for
    /// the first, or by the pair itself.
    pub fn says_skip(&self, rf: [i32; 2], this_mode: PredMode) -> (r: bool)
        requires
            0 <= rf[0] < 8,
            -1 <= rf[1] < 8,
        ensures
            r == ((self.pred_modes[rf[0] as int] >> (this_mode.index() as u32)) & 1 == 1 || self.off(
                rf[0] as int,
                rf[1] as int,
            )),
    {
        let bits: u32 = self.pred_modes[rf[0] as usize];
        let n: u32 = this_mode.to_i32() as u32;
        if (bits >> n) & 1 == 1 {
            return true;
        }
        self.is_disabled(rf[0], rf[1])
    }
}

/// The smaller sets are parts of the larger ones.
pub proof fn law_ref_sets_nest(a: int, b: int)
    ensures
        in_ref_set(RefSet::RealTime, a, b) ==> in_ref_set(RefSet::Reduced, a, b),
        in_ref_set(RefSet::Reduced, a, b) ==> in_ref_set(RefSet::Full, a, b),
{
    if in_ref_set(RefSet::RealTime, a, b) {
        let i = choose|i: int|
            0 <= i < 4 && a == (#[trigger] REAL_TIME_REF_COMBOS[i])[0] && b
                == REAL_TIME_REF_COMBOS[i][1];
        assert(REDUCED_REF_COMBOS[1][0] == 7 && REDUCED_REF_COMBOS[1][1] == -1);
        assert(REDUCED_REF_COMBOS[3][0] == 4 && REDUCED_REF_COMBOS[3][1] == -1);
        assert(REDUCED_REF_COMBOS[4][0] == 0 && REDUCED_REF_COMBOS[4][1] == -1);
        assert(REDUCED_REF_COMBOS[0][0] == 1 && REDUCED_REF_COMBOS[0][1] == -1);
    }
}

/// A neighbour uses exactly this pair of references.
pub fn match_ref_frame_pair(mbmi_rf: [i32; 2], rf: [i32; 2]) -> (r: bool)
    ensures
        r == (mbmi_rf[0] == rf[0] && mbmi_rf[1] == rf[1]),
{
    mbmi_rf[0] == rf[0] && mbmi_rf[1] == rf[1]
}

/// A neighbour uses the first reference of a block, or the second of a
/// compound one.
pub open spec fn shares_reference(cur_rf: [i32; 2], nb_rf: [i32; 2]) -> bool {
    ||| cur_rf[0] == nb_rf[0]
    ||| cur_rf[0] == nb_rf[1]
    ||| cur_rf[1] > INTRA_FRAME && (cur_rf[1] == nb_rf[0] || cur_rf[1] == nb_rf[1])
}

/// See [`shares_reference`].
pub fn ref_match_found_in_nb_blocks(cur_rf: [i32; 2], nb_rf: [i32; 2]) -> (r: bool)
    ensures
        r == shares_reference(cur_rf, nb_rf),
{
    let is_cur_comp: bool = cur_rf[1] > INTRA_FRAME;
    cur_rf[0] == nb_rf[0] || cur_rf[0] == nb_rf[1] || (is_cur_comp && (cur_rf[1] == nb_rf[0]
        || cur_rf[1] == nb_rf[1]))
}

/// Side on which neighbours are looked at.
#[derive(Clone, Copy, Debug, PartialEq, Eq, Structural)]
pub enum NbDir {
    Above,
    Left,
}

/// A neighbour.
#[derive(Clone, Copy, Debug)]
pub struct NbMi {
    pub ref_frame: [i32; 2],
    pub bsize: usize,
    pub use_intrabc: bool,
}

impl Default for NbMi {
    fn default() -> (r: Self)
        ensures
            r.ref_frame[0] == 0,
            r.ref_frame[1] == 0,
            r.bsize == 0,
            !r.use_intrabc,
    {
        NbMi { ref_frame: [0, 0], bsize: 0, use_intrabc: false }
    }
}

impl NbMi {
    /// The neighbour is predicted from a frame.
    pub open spec fn is_inter(self) -> bool {
        self.use_intrabc || self.ref_frame[0] > INTRA_FRAME
    }
}

/// The neighbour at a position.
pub open spec fn neighbour_at<F: Fn(i32) -> NbMi>(f: F, p: i32) -> NbMi {
    choose|y: NbMi| #[trigger] call_ensures(f, (p,), y)
}

/// Mode-info units that a neighbour covers along the side.
pub open spec fn neighbour_step(dir: NbDir, bsize: int) -> int {
    match dir {
        NbDir::Above => MI_SIZE_WIDE_B[bsize] as int,
        NbDir::Left => MI_SIZE_HIGH_B[bsize] as int,
    }
}

/// One of the neighbours from `pos` to `end` is predicted from a frame and
/// shares a reference.
pub open spec fn some_neighbour_shares<F: Fn(i32) -> NbMi>(
    f: F,
    dir: NbDir,
    pos: int,
    end: int,
    cur_rf: [i32; 2],
) -> bool
    decreases
            (if end > pos {
                end - pos
            } else {
                0
            }),
{
    if pos >= end {
        false
    } else {
        let nb = neighbour_at(f, pos as i32);
        let step = neighbour_step(dir, nb.bsize as int);
        if nb.is_inter() && shares_reference(cur_rf, nb.ref_frame) {
            true
        } else if step <= 0 {
            false
        } else {
            some_neighbour_shares(f, dir, pos + step, end, cur_rf)
        }
    }
}

/// A walk over the neighbours from `pos` to `end` looks at position `p`: it
/// goes from each neighbour to the one behind it, and ends at one that shares a
/// reference.
pub open spec fn is_looked_at<F: Fn(i32) -> NbMi>(
    f: F,
    dir: NbDir,
    pos: int,
    end: int,
    cur_rf: [i32; 2],
    p: int,
) -> bool
    decreases
            (if end > pos {
                end - pos
            } else {
                0
            }),
{
    if pos >= end {
        false
    } else {
        let nb = neighbour_at(f, pos as i32);
        let step = neighbour_step(dir, nb.bsize as int);
        p == pos || (step > 0 && !(nb.is_inter() && shares_reference(cur_rf, nb.ref_frame))
            && is_looked_at(f, dir, pos + step, end, cur_rf, p))
    }
}

/// A position can be looked at: there is a neighbour, always the same one, and
/// its block size is in range.
pub open spec fn is_neighbour<F: Fn(i32) -> NbMi>(f: F, p: i32) -> bool {
    &&& call_requires(f, (p,))
    &&& forall|y: NbMi, z: NbMi| #[trigger]
        call_ensures(f, (p,), y) && #[trigger] call_ensures(f, (p,), z) ==> y == z
    &&& forall|y: NbMi| #[trigger] call_ensures(f, (p,), y) ==> y.bsize < 22
}

/// Only positions from `pos` to `end` are looked at.
pub proof fn law_neighbours_lie_on_the_side<F: Fn(i32) -> NbMi>(
    f: F,
    dir: NbDir,
    pos: int,
    end: int,
    cur_rf: [i32; 2],
    p: int,
)
    requires
        is_looked_at(f, dir, pos, end, cur_rf, p),
    ensures
        pos <= p < end,
    decreases
            (if end > pos {
                end - pos
            } else {
                0
            }),
{
    let step = neighbour_step(dir, neighbour_at(f, pos as i32).bsize as int);
    if p != pos {
        law_neighbours_lie_on_the_side(f, dir, pos + step, end, cur_rf, p);
    }
}

/// A neighbour along a side shares a reference. A side that is not available
/// counts as if it did, and is not looked at.
pub fn find_ref_match_in_nbs<F: Fn(i32) -> NbMi>(
    dir: NbDir,
    total_mi: i32,
    start: i32,
    extent: i32,
    available: bool,
    cur_rf: [i32; 2],
    nb: &F,
) -> (r: bool)
    requires
        available ==> i32::MIN <= start + extent <= i32::MAX,
        available ==> forall|p: i32| #[trigger]
            is_looked_at(
                *nb,
                dir,
                start as int,
                min_int(start + extent, total_mi as int),
                cur_rf,
                p as int,
            ) ==> is_neighbour(*nb, p),
    ensures
        r == (!available || some_neighbour_shares(
            *nb,
            dir,
            start as int,
            min_int(start + extent, total_mi as int),
            cur_rf,
        )),
{
    if !available {
        return true;
    }
    let end: i32 = if start + extent < total_mi {
        start + extent
    } else {
        total_mi
    };
    let mut pos: i64 = start as i64;
    assert(end == min_int(start + extent, total_mi as int));
    while pos < end as i64
        invariant
            available,
            end == min_int(start + extent, total_mi as int),
            i32::MIN <= pos <= i32::MAX + 32,
            forall|p: i32| #[trigger]
                is_looked_at(*nb, dir, pos as int, end as int, cur_rf, p as int) ==> is_neighbour(
                    *nb,
                    p,
                ),
            some_neighbour_shares(*nb, dir, start as int, end as int, cur_rf)
                == some_neighbour_shares(*nb, dir, pos as int, end as int, cur_rf),
        decreases end + 32 - pos,
    {
        let at: i32 = pos as i32;
        assert(is_looked_at(*nb, dir, pos as int, end as int, cur_rf, at as int));
        let cell: NbMi = nb(at);
        assert(call_ensures(*nb, (at,), cell));
        proof {
            crate::block::law_block_dimensions(cell.bsize as int);
        }
        let step: i64 = match dir {
            NbDir::Above => MI_SIZE_WIDE_B[cell.bsize],
            NbDir::Left => MI_SIZE_HIGH_B[cell.bsize],
        } as i64;
        let is_inter: bool = cell.use_intrabc || cell.ref_frame[0] > INTRA_FRAME;
        if is_inter && ref_match_found_in_nb_blocks(cur_rf, cell.ref_frame) {
            return true;
        }
        assert forall|p: i32| #[trigger]
            is_looked_at(*nb, dir, pos + step, end as int, cur_rf, p as int) implies is_neighbour(
            *nb,
            p,
        ) by {
            assert(is_looked_at(*nb, dir, pos as int, end as int, cur_rf, p as int));
        }
        pos = pos + step;
    }
    false
}

/// A neighbour uses a reference.
pub open spec fn uses_reference(nb: NbMi, r: int) -> bool {
    nb.is_inter() && (r == nb.ref_frame[0] || (nb.ref_frame[1] > INTRA_FRAME && r
        == nb.ref_frame[1]))
}

/// Mark which of two references a neighbour uses; marks that are set stay.
pub fn match_ref_frame(nb: NbMi, rf: [i32; 2], is_ref_match: &mut [bool; 2])
    ensures
        forall|k: int|
            0 <= k < 2 ==> #[trigger] final(is_ref_match)[k] == (old(is_ref_match)[k]
                || uses_reference(nb, rf[k] as int)),
{
    let is_inter: bool = nb.use_intrabc || nb.ref_frame[0] > INTRA_FRAME;
    if !is_inter {
        return;
    }
    let has_second: bool = nb.ref_frame[1] > INTRA_FRAME;
    for k in 0usize..2
        invariant
            nb.is_inter(),
            has_second == (nb.ref_frame[1] > INTRA_FRAME),
            forall|j: int| k <= j < 2 ==> #[trigger] is_ref_match[j] == old(is_ref_match)[j],
            forall|j: int|
                0 <= j < k ==> #[trigger] is_ref_match[j] == (old(is_ref_match)[j]
                    || uses_reference(nb, rf[j] as int)),
    {
        if rf[k] == nb.ref_frame[0] || (has_second && rf[k] == nb.ref_frame[1]) {
            is_ref_match[k] = true;
        }
    }
}

/// The four compound modes that are no extension.
pub open spec fn is_plain_compound(mode: PredMode) -> bool {
    mode is NearestNearestMv || mode is NearNearMv || mode is NewNewMv || mode is GlobalGlobalMv
}

fn is_plain(mode: PredMode) -> (r: bool)
    ensures
        r == is_plain_compound(mode),
{
    matches!(
        mode,
        PredMode::NearestNearestMv | PredMode::NearNearMv | PredMode::NewNewMv
            | PredMode::GlobalGlobalMv
    )
}

/// Number of a pair's references that the neighbours use.
pub open spec fn neighbour_matches(rf: [i32; 2], left: Option<NbMi>, above: Option<NbMi>) -> int {
    let used = |r: int|
        (left matches Some(n) && uses_reference(n, r)) || (above matches Some(n) && uses_reference(
            n,
            r,
        ));
    (if used(rf[0] as int) {
        1int
    } else {
        0
    }) + (if used(rf[1] as int) {
        1int
    } else {
        0
    })
}

/// An extended compound mode is left out: the neighbours use too few of its
/// references.
pub fn compound_skip_using_neighbor_refs(
    this_mode: PredMode,
    rf: [i32; 2],
    prune_ext_comp_using_neighbors: i32,
    left: Option<NbMi>,
    above: Option<NbMi>,
) -> (r: bool)
    ensures
        r == (!is_plain_compound(this_mode) && (prune_ext_comp_using_neighbors >= 3
            || neighbour_matches(rf, left, above) < prune_ext_comp_using_neighbors)),
{
    if is_plain(this_mode) {
        return false;
    }
    if prune_ext_comp_using_neighbors >= 3 {
        return true;
    }
    let mut is_ref_match: [bool; 2] = [false, false];
    if let Some(nb) = left {
        match_ref_frame(nb, rf, &mut is_ref_match);
    }
    if let Some(nb) = above {
        match_ref_frame(nb, rf, &mut is_ref_match);
    }
    let mut matches: i32 = 0;
    if is_ref_match[0] {
        matches = matches + 1;
    }
    if is_ref_match[1] {
        matches = matches + 1;
    }
    matches < prune_ext_comp_using_neighbors
}

/// Remember the cheapest mode of a reference.
pub fn update_best_single_mode(
    best_single_rd: &mut [i64; 8],
    best_single_mode: &mut [Option<PredMode>; 8],
    this_mode: PredMode,
    ref_frame: i32,
    this_rd: i64,
)
    requires
        0 <= ref_frame < 8,
    ensures
        ({
            let better = this_rd < old(best_single_rd)[ref_frame as int];
            &&& final(best_single_rd)@ == if better {
                old(best_single_rd)@.update(ref_frame as int, this_rd)
            } else {
                old(best_single_rd)@
            }
            &&& final(best_single_mode)@ == if better {
                old(best_single_mode)@.update(ref_frame as int, Some(this_mode))
            } else {
                old(best_single_mode)@
            }
        }),
{
    let r: usize = ref_frame as usize;
    if this_rd < best_single_rd[r] {
        best_single_rd[r] = this_rd;
        best_single_mode[r] = Some(this_mode);
    }
}

/// Which half of an extended compound mode has a new vector.
pub open spec fn new_half(mode: PredMode) -> int {
    if mode.half(false) == Some(PredMode::NewMv) {
        0
    } else {
        1
    }
}

/// An extended compound mode is left out: the reference of its new half did
/// not come out best with a new vector on its own. At level 1 a reference
/// without a best mode keeps it in.
pub fn skip_compound_using_best_single_mode_ref(
    this_mode: PredMode,
    rf: [i32; 2],
    best_single_mode: &[Option<PredMode>; 8],
    prune_comp_using_best_single_mode_ref: i32,
) -> (r: bool)
    requires
        is_plain_compound(this_mode) || (19 <= this_mode.index() <= 22 && 0 <= rf[new_half(
            this_mode,
        )] < 8),
    ensures
        r == ({
            let best = best_single_mode[rf[new_half(this_mode)] as int];
            !is_plain_compound(this_mode) && best != Some(PredMode::NewMv) && !(
            prune_comp_using_best_single_mode_ref == 1 && best is None)
        }),
{
    if is_plain(this_mode) {
        return false;
    }
    let newmv_dir: usize = match compound_ref0_mode(this_mode) {
        Some(PredMode::NewMv) => 0,
        _ => 1,
    };
    match best_single_mode[rf[newmv_dir] as usize] {
        Some(PredMode::NewMv) => false,
        Some(_) => true,
        None => prune_comp_using_best_single_mode_ref != 1,
    }
}

/// The pairs of references: forward with backward ones first, then those of
/// one direction.
pub const REF_FRAME_MAP: [[i32; 2]; 21] = [
    [1, 5],
    [2, 5],
    [3, 5],
    [4, 5],
    [1, 6],
    [2, 6],
    [3, 6],
    [4, 6],
    [1, 7],
    [2, 7],
    [3, 7],
    [4, 7],
    [1, 2],
    [1, 3],
    [1, 4],
    [5, 7],
    [2, 3],
    [2, 4],
    [3, 4],
    [5, 6],
    [6, 7],
];

/// Pair `k` has a reference and is not masked.
pub open spec fn pair_uses(ref_frame: int, mask: i32, k: int) -> bool {
    &&& (mask >> ((k + 8) as u32)) & 1 == 0
    &&& (REF_FRAME_MAP[k][0] == ref_frame || REF_FRAME_MAP[k][1] == ref_frame)
}

/// A pair that is not masked has the reference.
pub fn is_ref_frame_used_by_compound_ref(ref_frame: i32, skip_ref_frame_mask: i32) -> (r: bool)
    ensures
        r == exists|k: int|
            0 <= k < 21 && #[trigger] pair_uses(ref_frame as int, skip_ref_frame_mask, k),
{
    for k in 0usize..21
        invariant
            forall|j: int|
                0 <= j < k ==> !#[trigger] pair_uses(ref_frame as int, skip_ref_frame_mask, j),
    {
        let pair: [i32; 2] = REF_FRAME_MAP[k];
        let n: u32 = (k + 8) as u32;
        if (skip_ref_frame_mask >> n) & 1 == 0 && (pair[0] == ref_frame || pair[1] == ref_frame) {
            assert(pair_uses(ref_frame as int, skip_ref_frame_mask, k as int));
            return true;
        }
    }
    false
}

/// Number of a pair of one direction, if it is one.
pub open spec fn one_way_pair(rf: [i32; 2], k: int) -> Option<int>
    decreases 21 - k,
{
    if k >= 21 {
        None
    } else if REF_FRAME_MAP[k][0] == rf[0] && REF_FRAME_MAP[k][1] == rf[1] {
        Some(k)
    } else {
        one_way_pair(rf, k + 1)
    }
}

/// Number of a reference, or of a pair of references after all single ones.
pub open spec fn ref_type(rf: [i32; 2]) -> int {
    if rf[1] <= INTRA_FRAME {
        rf[0] as int
    } else {
        match one_way_pair(rf, 12) {
            Some(k) => 8 + k,
            None => 8 + (rf[0] - 1) + (rf[1] - 5) * 4,
        }
    }
}

/// See [`ref_type`].
pub fn ref_frame_type(rf: [i32; 2]) -> (r: i32)
    requires
        -1 <= rf[0] < 8,
        -1 <= rf[1] < 8,
    ensures
        r == ref_type(rf),
{
    if rf[1] <= INTRA_FRAME {
        return rf[0];
    }
    for k in 12usize..21
        invariant
            one_way_pair(rf, 12) == one_way_pair(rf, k as int),
    {
        if REF_FRAME_MAP[k][0] == rf[0] && REF_FRAME_MAP[k][1] == rf[1] {
            return 8 + k as i32;
        }
    }
    8 + (rf[0] - 1) + (rf[1] - 5) * 4
}

/// Every pair of the map has its place in it for number.
pub proof fn law_ref_types_follow_the_map(k: int)
    requires
        0 <= k < 21,
    ensures
        ref_type(REF_FRAME_MAP[k]) == 8 + k,
{
    let rf = REF_FRAME_MAP[k];
    assert(rf[1] > 0);
    reveal_with_fuel(one_way_pair, 10);
}

/// Remembered mode info uses a reference, or exactly this pair.
pub fn is_ref_frame_used_in_cache(ref_frame: i32, mi_cache: Option<[i32; 2]>) -> (r: bool)
    requires
        mi_cache matches Some(c) ==> -1 <= c[0] < 8 && -1 <= c[1] < 8,
    ensures
        r == match mi_cache {
            None => false,
            Some(c) => if 0 <= ref_frame < 8 {
                ref_frame == c[0] || ref_frame == c[1]
            } else {
                ref_frame == ref_type(c)
            },
        },
{
    match mi_cache {
        None => false,
        Some(cache) => if ref_frame >= 0 && ref_frame < 8 {
            ref_frame == cache[0] || ref_frame == cache[1]
        } else {
            ref_frame == ref_frame_type(cache)
        },
    }
}

/// The masks of `n` places of a row, together.
pub open spec fn row_mask(picked: Seq<i32>, start: int, n: int) -> i32
    decreases n,
{
    if n <= 0 {
        0i32
    } else {
        row_mask(picked, start, n - 1) | picked[start + n - 1]
    }
}

/// The masks of `h` rows of `w` places, together, in a grid 32 places wide.
pub open spec fn area_mask(picked: Seq<i32>, start: int, w: int, h: int) -> i32
    decreases h,
{
    if h <= 0 {
        0i32
    } else {
        area_mask(picked, start, w, h - 1) | row_mask(picked, start + (h - 1) * 32, w)
    }
}

proof fn lemma_or_assoc(a: i32, b: i32, c: i32)
    ensures
        (a | b) | c == a | (b | c),
{
    assert((a | b) | c == a | (b | c)) by (bit_vector);
}

proof fn lemma_or_zero(a: i32)
    ensures
        a | 0 == a,
{
    assert(a | 0 == a) by (bit_vector);
}

/// The masks of all places of a block inside its superblock, together. The
/// grid is 32 places wide whatever the size of the superblock.
pub fn fetch_picked_ref_frames_mask(
    mi_row: i32,
    mi_col: i32,
    bsize: usize,
    mib_size: i32,
    picked: &[i32; 1024],
) -> (r: i32)
    requires
        bsize < 22,
        mib_size == 16 || mib_size == 32,
        mi_row >= 0,
        mi_col >= 0,
        (mi_row % mib_size + MI_SIZE_HIGH_B[bsize as int] - 1) * 32 + mi_col % mib_size
            + MI_SIZE_WIDE_B[bsize as int] - 1 < 1024,
    ensures
        r == area_mask(
            picked@,
            (mi_row % mib_size) * 32 + mi_col % mib_size,
            MI_SIZE_WIDE_B[bsize as int] as int,
            MI_SIZE_HIGH_B[bsize as int] as int,
        ),
{
    proof {
        crate::block::law_block_dimensions(bsize as int);
    }
    let row_in_sb: usize = (mi_row % mib_size) as usize;
    let col_in_sb: usize = (mi_col % mib_size) as usize;
    let mi_w: usize = MI_SIZE_WIDE_B[bsize] as usize;
    let mi_h: usize = MI_SIZE_HIGH_B[bsize] as usize;
    let base: usize = row_in_sb * 32 + col_in_sb;
    let mut mask: i32 = 0;
    for i in 0..mi_h
        invariant
            base + (mi_h - 1) * 32 + mi_w - 1 < 1024,
            1 <= mi_h <= 32,
            1 <= mi_w <= 32,
            mask == area_mask(picked@, base as int, mi_w as int, i as int),
    {
        let ghost before = mask;
        proof {
            lemma_or_zero(before);
        }
        for j in 0..mi_w
            invariant
                i < mi_h,
                base + (mi_h - 1) * 32 + mi_w - 1 < 1024,
                1 <= mi_h <= 32,
                1 <= mi_w <= 32,
                mask == before | row_mask(picked@, base + i * 32, j as int),
        {
            proof {
                lemma_or_assoc(
                    before,
                    row_mask(picked@, base + i * 32, j as int),
                    picked[base + i * 32 + j],
                );
            }
            mask = mask | picked[base + i * 32 + j];
        }
    }
    mask
}

/// Every bit of one place's mask is in the mask of a row that holds the place.
pub proof fn law_row_mask_holds_each_place(picked: Seq<i32>, start: int, n: int, k: int)
    requires
        0 <= k < n,
    ensures
        row_mask(picked, start, n) & picked[start + k] == picked[start + k],
    decreases n,
{
    let rest = row_mask(picked, start, n - 1);
    let last = picked[start + n - 1];
    let one = picked[start + k];
    if k == n - 1 {
        assert((rest | last) & last == last) by (bit_vector);
    } else {
        law_row_mask_holds_each_place(picked, start, n - 1, k);
        assert((rest | last) & one == one) by (bit_vector)
            requires
                rest & one == one,
        ;
    }
}

/// The least of places 1 to `n - 1`.
pub open spec fn least_below(rd: Seq<i64>, n: int) -> i64
    decreases n,
{
    if n <= 2 {
        rd[1]
    } else {
        min_int(least_below(rd, n - 1) as int, rd[n - 1] as int) as i64
    }
}

/// A tenth over a cost; no limit without a cost.
pub open spec fn search_limit(least: i64) -> int {
    if least == i64::MAX {
        least as int
    } else {
        trunc_div(110 * least, 100)
    }
}

/// Put the limit of a search into place 0: a tenth over the least cost of a
/// reference. Without any cost there is no limit.
pub fn find_top_ref(ref_frame_rd: &mut [i64; 8])
    requires
        old(ref_frame_rd)[0] == i64::MAX,
        ({
            let least = least_below(old(ref_frame_rd)@, 8);
            least == i64::MAX || (i64::MIN <= 110 * least && least < i64::MAX / 200)
        }),
    ensures
        final(ref_frame_rd)@ == old(ref_frame_rd)@.update(
            0,
            search_limit(least_below(old(ref_frame_rd)@, 8)) as i64,
        ),
        final(ref_frame_rd)[0] == search_limit(least_below(old(ref_frame_rd)@, 8)),
{
    let mut cutoff: i64 = ref_frame_rd[1];
    for k in 2usize..8
        invariant
            *ref_frame_rd == *old(ref_frame_rd),
            cutoff == least_below(old(ref_frame_rd)@, k as int),
    {
        if ref_frame_rd[k] < cutoff {
            cutoff = ref_frame_rd[k];
        }
    }
    let limit: i64 = if cutoff == i64::MAX {
        cutoff
    } else {
        (110 * cutoff) / 100
    };
    assert(limit == search_limit(cutoff));
    ref_frame_rd[0] = limit;
}

/// The cheapest reference is within the limit.
pub proof fn law_cheapest_reference_is_within_the_limit(rd: Seq<i64>, k: int)
    requires
        rd.len() == 8,
        1 <= k < 8,
        rd[k] == least_below(rd, 8),
        rd[k] >= 0,
        rd[k] <= i64::MAX / 200 || rd[k] == i64::MAX,
    ensures
        rd[k] <= search_limit(least_below(rd, 8)),
{
}

/// One of a pair's references costs no more than the limit of
/// [`find_top_ref`].
pub fn in_single_ref_cutoff(ref_frame_rd: &[i64; 8], frame1: i32, frame2: i32) -> (r: bool)
    requires
        0 <= frame1 < 8,
        0 < frame2 < 8,
    ensures
        r == (ref_frame_rd[frame1 as int] <= ref_frame_rd[0] || ref_frame_rd[frame2 as int]
            <= ref_frame_rd[0]),
{
    ref_frame_rd[frame1 as usize] <= ref_frame_rd[0] || ref_frame_rd[frame2 as usize]
        <= ref_frame_rd[0]
}

/// Lower cost first, then lower place.
pub open spec fn ranks_before(a: (usize, i64), b: (usize, i64)) -> bool {
    a.1 < b.1 || (a.1 == b.1 && a.0 < b.0)
}

/// Places of the first `n` candidates with their costs, in rank order. No
/// place comes twice, since the order is strict.
pub open spec fn is_ranking(pairs: Seq<(usize, i64)>, est_rd: Seq<i64>, n: int) -> bool {
    &&& pairs.len() == n
    &&& forall|k: int|
        0 <= k < n ==> (#[trigger] pairs[k]).0 < n && pairs[k].1 == est_rd[pairs[k].0 as int]
    &&& forall|i: int, j: int|
        0 <= i < j < n ==> ranks_before(#[trigger] pairs[i], #[trigger] pairs[j])
}

/// The candidates in the order of their estimated costs, ties in the order in
/// which they came.
pub fn inter_modes_info_sort(est_rd: &[i64]) -> (r: Vec<(usize, i64)>)
    ensures
        is_ranking(r@, est_rd@, est_rd.len() as int),
{
    let mut pairs: Vec<(usize, i64)> = Vec::new();
    for idx in 0..est_rd.len()
        invariant
            is_ranking(pairs@, est_rd@, idx as int),
    {
        let rd: i64 = est_rd[idx];
        let mut at: usize = pairs.len();
        while at > 0 && pairs[at - 1].1 > rd
            invariant
                at <= pairs.len(),
                forall|k: int| at <= k < pairs.len() ==> (#[trigger] pairs[k]).1 > rd,
            decreases at,
        {
            at = at - 1;
        }
        let ghost before = pairs@;
        pairs.insert(at, (idx, rd));
        assert forall|k: int| 0 <= k < idx + 1 implies (#[trigger] pairs[k]).0 < idx + 1
            && pairs[k].1 == est_rd[pairs[k].0 as int] by {
            if k < at {
                assert(pairs[k] == before[k]);
            } else if k > at {
                assert(pairs[k] == before[k - 1]);
            }
        }
        assert forall|i: int, j: int| 0 <= i < j < idx + 1 implies ranks_before(
            #[trigger] pairs[i],
            #[trigger] pairs[j],
        ) by {
            let bi = if i < at {
                i
            } else {
                i - 1
            };
            let bj = if j < at {
                j
            } else {
                j - 1
            };
            if i != at {
                assert(pairs[i] == before[bi]);
            }
            if j != at {
                assert(pairs[j] == before[bj]);
            }
            if i < at && j == at {
                assert(before[i].0 < idx);
                assert(!(before[at - 1].1 > rd));
                if i < at - 1 {
                    assert(ranks_before(before[i], before[at - 1]));
                }
            }
        }
    }
    pairs
}

/// In a ranking of candidates every one has its place.
pub proof fn law_ranking_holds_every_candidate(
    pairs: Seq<(usize, i64)>,
    est_rd: Seq<i64>,
    idx: int,
)
    requires
        is_ranking(pairs, est_rd, est_rd.len() as int),
        0 <= idx < est_rd.len(),
    ensures
        exists|k: int| 0 <= k < pairs.len() && (#[trigger] pairs[k]).0 == idx,
{
    let n = est_rd.len();
    let places: Seq<int> = Seq::new(n, |k: int| pairs[k].0 as int);
    assert forall|i: int, j: int| 0 <= i < n && 0 <= j < n && i != j implies places[i]
        != places[j] by {
        if i < j {
            assert(ranks_before(pairs[i], pairs[j]));
        } else {
            assert(ranks_before(pairs[j], pairs[i]));
        }
    }
    assert(places.no_duplicates());
    places.unique_seq_to_set();
    let all = vstd::set_lib::set_int_range(0, n as int);
    vstd::set_lib::lemma_int_range(0, n as int);
    assert(places.to_set().subset_of(all)) by {
        assert forall|x: int| places.to_set().contains(x) implies all.contains(x) by {
            let k = choose|k: int| 0 <= k < places.len() && places[k] == x;
            assert(pairs[k].0 < n);
        }
    }
    vstd::set_lib::lemma_subset_equality(places.to_set(), all);
    assert(all.contains(idx));
    assert(places.to_set().contains(idx));
    let k = choose|k: int| 0 <= k < places.len() && places[k] == idx;
    assert(pairs[k].0 == idx);
}

/// Neighbours that use more references leave an extended compound mode in: the
/// sides and the two references count alike, a further neighbour takes nothing
/// away, and a mode left out at one level is left out at every higher one.
pub proof fn law_neighbours_count_alike(
    rf: [i32; 2],
    swapped: [i32; 2],
    left: Option<NbMi>,
    above: Option<NbMi>,
)
    requires
        swapped[0] == rf[1],
        swapped[1] == rf[0],
    ensures
        neighbour_matches(rf, left, above) == neighbour_matches(rf, above, left),
        neighbour_matches(rf, left, above) == neighbour_matches(swapped, left, above),
        neighbour_matches(rf, left, None) <= neighbour_matches(rf, left, above) <= 2,
        neighbour_matches(rf, None, None) == 0,
{
}

/// A neighbour with two references uses both of them and no other, whichever
/// comes first; one with a single reference uses that alone.
pub proof fn law_neighbour_uses_its_references(nb: NbMi, r: int)
    requires
        nb.ref_frame[0] > INTRA_FRAME,
    ensures
        uses_reference(nb, nb.ref_frame[0] as int),
        nb.ref_frame[1] > INTRA_FRAME ==> uses_reference(nb, nb.ref_frame[1] as int),
        nb.ref_frame[1] <= INTRA_FRAME ==> (uses_reference(nb, r) <==> r == nb.ref_frame[0]),
        r != nb.ref_frame[0] && r != nb.ref_frame[1] ==> !uses_reference(nb, r),
{
}

/// Two blocks predicted from frames match where they have a reference in
/// common, whichever of the two is asked.
pub proof fn law_common_reference_matches(a: [i32; 2], b: [i32; 2])
    requires
        a[0] > INTRA_FRAME,
        b[0] > INTRA_FRAME,
    ensures
        shares_reference(a, b) == shares_reference(b, a),
        shares_reference(a, a),
        a[1] <= INTRA_FRAME && b[1] <= INTRA_FRAME ==> (shares_reference(a, b) <==> a[0] == b[0]),
{
}

/// A side matches exactly where one of the neighbours that the walk looks at is
/// predicted from a frame and shares a reference.
pub proof fn law_match_is_a_neighbour_looked_at<F: Fn(i32) -> NbMi>(
    f: F,
    dir: NbDir,
    pos: int,
    end: int,
    cur_rf: [i32; 2],
)
    requires
        i32::MIN <= pos,
        end <= i32::MAX,
    ensures
        some_neighbour_shares(f, dir, pos, end, cur_rf) <==> exists|p: int|
            #[trigger] is_looked_at(f, dir, pos, end, cur_rf, p) && neighbour_at(
                f,
                p as i32,
            ).is_inter() && shares_reference(cur_rf, neighbour_at(f, p as i32).ref_frame),
    decreases
            (if end > pos {
                end - pos
            } else {
                0
            }),
{
    if pos < end {
        let nb = neighbour_at(f, pos as i32);
        let step = neighbour_step(dir, nb.bsize as int);
        let here = nb.is_inter() && shares_reference(cur_rf, nb.ref_frame);
        assert(is_looked_at(f, dir, pos, end, cur_rf, pos));
        if !here && step > 0 {
            law_match_is_a_neighbour_looked_at(f, dir, pos + step, end, cur_rf);
            if some_neighbour_shares(f, dir, pos, end, cur_rf) {
                let p = choose|p: int|
                    #[trigger] is_looked_at(f, dir, pos + step, end, cur_rf, p) && neighbour_at(
                        f,
                        p as i32,
                    ).is_inter() && shares_reference(cur_rf, neighbour_at(f, p as i32).ref_frame);
                assert(is_looked_at(f, dir, pos, end, cur_rf, p));
            }
        }
        assert forall|p: int| #[trigger]
            is_looked_at(f, dir, pos, end, cur_rf, p) && neighbour_at(f, p as i32).is_inter()
                && shares_reference(
                cur_rf,
                neighbour_at(f, p as i32).ref_frame,
            ) implies some_neighbour_shares(f, dir, pos, end, cur_rf) by {
            if p != pos {
                assert(is_looked_at(f, dir, pos + step, end, cur_rf, p));
            }
        }
    }
}

/// The half with the new vector of an extended compound mode is new, and the
/// other half is not.
pub proof fn law_new_half_is_new(mode: PredMode)
    requires
        19 <= mode.index() <= 22,
    ensures
        new_half(mode) == 0 || new_half(mode) == 1,
        mode.half(new_half(mode) == 1) == Some(PredMode::NewMv),
        mode.half(new_half(mode) == 0) != Some(PredMode::NewMv),
        !is_plain_compound(mode),
{
}

proof fn lemma_row_mask_keeps_out(picked: Seq<i32>, start: int, n: int, bits: i32)
    requires
        forall|k: int| 0 <= k < n ==> (#[trigger] picked[start + k]) & bits == 0,
    ensures
        row_mask(picked, start, n) & bits == 0,
    decreases n,
{
    if n <= 0 {
        assert(0i32 & bits == 0) by (bit_vector);
    } else {
        lemma_row_mask_keeps_out(picked, start, n - 1, bits);
        let (rest, last) = (row_mask(picked, start, n - 1), picked[start + (n - 1)]);
        assert((rest | last) & bits == 0) by (bit_vector)
            requires
                rest & bits == 0,
                last & bits == 0,
        ;
    }
}

/// The mask of an area is the union of the masks of its places: it holds every
/// bit of each place, and no bit that none of the places has.
pub proof fn law_area_mask_is_the_union(
    picked: Seq<i32>,
    start: int,
    w: int,
    h: int,
    y: int,
    x: int,
    bits: i32,
)
    requires
        0 <= y < h,
        0 <= x < w,
    ensures
        ({
            let one = picked[start + y * 32 + x];
            area_mask(picked, start, w, h) & one == one
        }),
        (forall|v: int, u: int|
            0 <= v < h && 0 <= u < w ==> (#[trigger] picked[start + v * 32 + u]) & bits == 0)
            ==> area_mask(picked, start, w, h) & bits == 0,
    decreases h,
{
    let rest = area_mask(picked, start, w, h - 1);
    let last = row_mask(picked, start + (h - 1) * 32, w);
    let one = picked[start + y * 32 + x];
    if y == h - 1 {
        law_row_mask_holds_each_place(picked, start + (h - 1) * 32, w, x);
        assert((rest | last) & one == one) by (bit_vector)
            requires
                last & one == one,
        ;
    } else {
        law_area_mask_is_the_union(picked, start, w, h - 1, y, x, bits);
        assert((rest | last) & one == one) by (bit_vector)
            requires
                rest & one == one,
        ;
    }
    if forall|v: int, u: int|
        0 <= v < h && 0 <= u < w ==> (#[trigger] picked[start + v * 32 + u]) & bits == 0 {
        lemma_area_mask_keeps_out(picked, start, w, h, bits);
    }
}

proof fn lemma_area_mask_keeps_out(picked: Seq<i32>, start: int, w: int, h: int, bits: i32)
    requires
        forall|v: int, u: int|
            0 <= v < h && 0 <= u < w ==> (#[trigger] picked[start + v * 32 + u]) & bits == 0,
    ensures
        area_mask(picked, start, w, h) & bits == 0,
    decreases h,
{
    if h <= 0 {
        assert(0i32 & bits == 0) by (bit_vector);
    } else {
        lemma_area_mask_keeps_out(picked, start, w, h - 1, bits);
        let row = start + (h - 1) * 32;
        assert forall|k: int| 0 <= k < w implies (#[trigger] picked[row + k]) & bits == 0 by {
            assert(picked[start + (h - 1) * 32 + k] & bits == 0);
        }
        lemma_row_mask_keeps_out(picked, row, w, bits);
        let (rest, last) = (area_mask(picked, start, w, h - 1), row_mask(picked, row, w));
        assert((rest | last) & bits == 0) by (bit_vector)
            requires
                rest & bits == 0,
                last & bits == 0,
        ;
    }
}

/// The least cost is the cost of one of the references, and no reference costs
/// less.
pub proof fn law_least_cost_is_a_reference(rd: Seq<i64>, n: int, k: int)
    requires
        2 <= n <= rd.len(),
        1 <= k < n,
    ensures
        least_below(rd, n) <= rd[k],
        exists|j: int| 1 <= j < n && least_below(rd, n) == #[trigger] rd[j],
    decreases n,
{
    if n <= 2 {
        assert(least_below(rd, n) == rd[1]);
    } else {
        law_least_cost_is_a_reference(rd, n - 1, if k < n - 1 { k } else { 1 });
        let j = choose|j: int| 1 <= j < n - 1 && least_below(rd, n - 1) == #[trigger] rd[j];
        if rd[n - 1] < least_below(rd, n - 1) {
            assert(least_below(rd, n) == rd[n - 1]);
        } else {
            assert(least_below(rd, n) == rd[j]);
        }
    }
}

/// A reference is within the limit exactly where it costs at most a tenth more
/// than the cheapest.
pub proof fn law_limit_is_a_tenth_over(least: i64, rd: int)
    requires
        0 <= least < i64::MAX,
    ensures
        rd <= search_limit(least) <==> 10 * rd <= 11 * least,
{
}

/// Every reference is part of a pair that a mask of nothing lets in, and a mask
/// of all pairs lets none in; the pairs are of different references, the second
/// the later one.
pub proof fn law_every_reference_is_in_a_pair(ref_frame: int, k: int)
    requires
        1 <= ref_frame <= 7,
        0 <= k < 21,
    ensures
        exists|j: int| 0 <= j < 21 && #[trigger] pair_uses(ref_frame, 0i32, j),
        !pair_uses(ref_frame, -1i32, k),
        1 <= REF_FRAME_MAP[k][0] < REF_FRAME_MAP[k][1] <= 7,
        (k < 12) == (REF_FRAME_MAP[k][0] <= 4 && REF_FRAME_MAP[k][1] >= 5),
{
    let j: int = if ref_frame <= 4 {
        ref_frame - 1
    } else {
        4 * (ref_frame - 5)
    };
    let (a, b) = ((j + 8) as u32, (k + 8) as u32);
    assert((0i32 >> a) & 1 == 0) by (bit_vector)
        requires
            a < 32,
    ;
    assert((-1i32 >> b) & 1 == 1) by (bit_vector)
        requires
            b < 32,
    ;
    assert(pair_uses(ref_frame, 0i32, j));
}

} // verus!
