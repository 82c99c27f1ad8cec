//! Reference buffers: which of the eight slots a coded frame refreshes, and
//! which slot each of the seven named references points at.

use vstd::prelude::*;

use crate::arith::min_int;
pub use crate::frame_flags;
use crate::samples::abs_int;

verus! {

/// Number of reference-buffer slots.
pub const REF_FRAMES: usize = 8;

/// Number of named references.
pub const INTER_REFS_PER_FRAME: usize = 7;

/// The refresh mask of all slots.
pub const SELECT_ALL_BUF_SLOTS: u32 = 0xFF;

/// Levels of the reference pyramid.
pub const MAX_ARF_LAYERS: i32 = 6;

/// From this many lowest-level references on, one of them may be left out.
pub const LOW_LEVEL_FRAMES_TR: i32 = 5;

#[derive(Clone, Copy, Debug, PartialEq, Eq, Structural)]
pub enum FrameType {
    Key,
    Inter,
    IntraOnly,
    Switch,
}

/// The role of a frame in its group.
#[derive(Clone, Copy, Debug, PartialEq, Eq, Structural)]
pub enum FrameUpdateType {
    Kf,
    /// A leaf of the pyramid.
    Lf,
    Gf,
    Arf,
    Overlay,
    IntnlOverlay,
    IntnlArf,
}

#[derive(Clone, Copy, Debug, PartialEq, Eq, Structural)]
pub enum RefbufState {
    /// The whole reference buffer is cleared.
    Reset,
    /// Selected slots are refreshed.
    Update,
}

/// Which of the named buffers a frame refreshes.
#[derive(Clone, Copy, Debug, PartialEq, Eq, Structural)]
pub struct RefreshFrameInfo {
    pub golden_frame: bool,
    pub bwd_ref_frame: bool,
    pub alt_ref_frame: bool,
}

impl Default for RefreshFrameInfo {
    fn default() -> (r: Self)
        ensures
            r == refresh_info(false, false, false),
    {
        RefreshFrameInfo { golden_frame: false, bwd_ref_frame: false, alt_ref_frame: false }
    }
}

pub open spec fn refresh_info(golden: bool, bwd: bool, alt: bool) -> RefreshFrameInfo {
    RefreshFrameInfo { golden_frame: golden, bwd_ref_frame: bwd, alt_ref_frame: alt }
}

impl RefreshFrameInfo {
    /// Write all three flags.
    pub fn set(&mut self, refresh_gf: bool, refresh_bwdref: bool, refresh_arf: bool)
        ensures
            *final(self) == refresh_info(refresh_gf, refresh_bwdref, refresh_arf),
    {
        self.golden_frame = refresh_gf;
        self.bwd_ref_frame = refresh_bwdref;
        self.alt_ref_frame = refresh_arf;
    }
}

/// The named refreshes of a frame, and whether its source is an alternate
/// reference.
#[derive(Clone, Copy, Debug, PartialEq, Eq, Structural)]
pub struct BufferUpdates {
    pub refresh: RefreshFrameInfo,
    pub is_src_frame_alt_ref: bool,
}

/// Refreshes requested from outside.
#[derive(Clone, Copy, Debug, PartialEq, Eq, Structural)]
pub struct ExtRefreshFrameFlags {
    pub last_frame: bool,
    pub golden_frame: bool,
    pub bwd_ref_frame: bool,
    pub alt_ref_frame: bool,
    pub alt2_ref_frame: bool,
}

impl Default for ExtRefreshFrameFlags {
    fn default() -> (r: Self)
        ensures
            r.refreshes_nothing(),
    {
        ExtRefreshFrameFlags {
            last_frame: false,
            golden_frame: false,
            bwd_ref_frame: false,
            alt_ref_frame: false,
            alt2_ref_frame: false,
        }
    }
}

impl ExtRefreshFrameFlags {
    pub open spec fn refreshes_nothing(self) -> bool {
        !self.last_frame && !self.golden_frame && !self.bwd_ref_frame && !self.alt_ref_frame
            && !self.alt2_ref_frame
    }

    /// A frame that refreshes nothing can be dropped.
    #[must_use]
    pub fn is_frame_droppable(&self) -> (r: bool)
        ensures
            r == self.refreshes_nothing(),
    {
        !(self.alt_ref_frame || self.alt2_ref_frame || self.bwd_ref_frame || self.golden_frame
            || self.last_frame)
    }
}

/// The refreshes that go with a frame's role.
pub open spec fn role_refresh(ty: FrameUpdateType, state: RefbufState) -> RefreshFrameInfo {
    let reset = state == RefbufState::Reset;
    match ty {
        FrameUpdateType::Kf => refresh_info(true, true, true),
        FrameUpdateType::Gf => refresh_info(true, false, false),
        FrameUpdateType::Overlay => refresh_info(true, reset, reset),
        FrameUpdateType::Arf => refresh_info(reset, reset, true),
        FrameUpdateType::IntnlArf => refresh_info(false, true, false),
        FrameUpdateType::Lf | FrameUpdateType::IntnlOverlay => refresh_info(false, false, false),
    }
}

/// The role that an outside request gives a frame: that of the last of
/// golden, alternate and backward that it refreshes.
pub open spec fn requested_role(ext: ExtRefreshFrameFlags) -> Option<FrameUpdateType> {
    if ext.bwd_ref_frame {
        Some(FrameUpdateType::IntnlArf)
    } else if ext.alt_ref_frame {
        Some(FrameUpdateType::Arf)
    } else if ext.golden_frame {
        Some(FrameUpdateType::Gf)
    } else {
        None
    }
}

/// The named refreshes of a frame, and its new role if an outside request
/// changes it. A request replaces the refreshes of the role; forcing a refresh
/// of everything overrides both.
#[must_use]
pub fn configure_buffer_updates(
    update_type: FrameUpdateType,
    refbuf_state: RefbufState,
    force_refresh_all: bool,
    ext_refresh: Option<ExtRefreshFrameFlags>,
) -> (r: (BufferUpdates, Option<FrameUpdateType>))
    ensures
        r.0.refresh == if force_refresh_all {
            refresh_info(true, true, true)
        } else {
            match ext_refresh {
                Some(e) => refresh_info(e.golden_frame, e.bwd_ref_frame, e.alt_ref_frame),
                None => role_refresh(update_type, refbuf_state),
            }
        },
        r.0.is_src_frame_alt_ref == (update_type == FrameUpdateType::Overlay || update_type
            == FrameUpdateType::IntnlOverlay),
        r.1 == match ext_refresh {
            Some(e) => requested_role(e),
            None => None,
        },
{
    let mut refresh = RefreshFrameInfo::default();
    let mut is_src_frame_alt_ref = false;
    let reset = refbuf_state == RefbufState::Reset;
    match update_type {
        FrameUpdateType::Kf => {
            refresh.set(true, true, true);
        },
        FrameUpdateType::Lf => {
            refresh.set(false, false, false);
        },
        FrameUpdateType::Gf => {
            refresh.set(true, false, false);
        },
        FrameUpdateType::Overlay => {
            refresh.set(true, reset, reset);
            is_src_frame_alt_ref = true;
        },
        FrameUpdateType::Arf => {
            refresh.set(reset, reset, true);
        },
        FrameUpdateType::IntnlOverlay => {
            refresh.set(false, false, false);
            is_src_frame_alt_ref = true;
        },
        FrameUpdateType::IntnlArf => {
            refresh.set(false, true, false);
        },
    }
    let mut new_update_type: Option<FrameUpdateType> = None;
    if let Some(ext) = ext_refresh {
        refresh.set(ext.golden_frame, ext.bwd_ref_frame, ext.alt_ref_frame);
        if ext.golden_frame {
            new_update_type = Some(FrameUpdateType::Gf);
        }
        if ext.alt_ref_frame {
            new_update_type = Some(FrameUpdateType::Arf);
        }
        if ext.bwd_ref_frame {
            new_update_type = Some(FrameUpdateType::IntnlArf);
        }
    }
    if force_refresh_all {
        refresh.set(true, true, true);
    }
    (BufferUpdates { refresh, is_src_frame_alt_ref }, new_update_type)
}

/// `bit` where `on` holds, nothing otherwise.
pub open spec fn flag_bit(on: bool, bit: u32) -> u32 {
    if on {
        bit
    } else {
        0
    }
}

pub open spec fn is_intra(t: FrameType) -> bool {
    t == FrameType::Key || t == FrameType::IntraOnly
}

/// The flags that a frame's type adds.
#[must_use]
pub fn additional_frame_flags(frame_type: FrameType, error_resilient_mode: bool) -> (r: u32)
    ensures
        r == flag_bit(is_intra(frame_type), frame_flags::INTRAONLY) | flag_bit(
            frame_type == FrameType::Switch,
            frame_flags::SWITCH,
        ) | flag_bit(error_resilient_mode, frame_flags::ERROR_RESILIENT),
{
    let intra: u32 = if frame_type == FrameType::Key || frame_type == FrameType::IntraOnly {
        frame_flags::INTRAONLY
    } else {
        0
    };
    let switch: u32 = if frame_type == FrameType::Switch { frame_flags::SWITCH } else { 0 };
    let resilient: u32 = if error_resilient_mode { frame_flags::ERROR_RESILIENT } else { 0 };
    intra | switch | resilient
}

/// `flags` with `bit` set or cleared.
pub open spec fn with_flag(flags: u32, bit: u32, on: bool) -> u32 {
    if on {
        flags | bit
    } else {
        flags & !bit
    }
}

fn write_flag(flags: u32, bit: u32, on: bool) -> (r: u32)
    ensures
        r == with_flag(flags, bit, on),
{
    if on {
        flags | bit
    } else {
        flags & !bit
    }
}

/// The flags with the four refresh bits brought in line with what was coded;
/// showing an existing frame clears all four.
#[must_use]
pub fn update_frame_flags(
    frame_flags: u32,
    refresh: RefreshFrameInfo,
    frame_type: FrameType,
    show_existing: bool,
) -> (r: u32)
    ensures
        r == updated_flags(frame_flags, refresh, frame_type, show_existing),
{
    let coded = !show_existing;
    let f: u32 = write_flag(frame_flags, crate::frame_flags::GOLDEN, coded && refresh.golden_frame);
    let g: u32 = write_flag(f, crate::frame_flags::ALTREF, coded && refresh.alt_ref_frame);
    let h: u32 = write_flag(g, crate::frame_flags::BWDREF, coded && refresh.bwd_ref_frame);
    write_flag(h, crate::frame_flags::KEY, coded && frame_type == FrameType::Key)
}

pub open spec fn updated_flags(
    flags: u32,
    refresh: RefreshFrameInfo,
    frame_type: FrameType,
    show_existing: bool,
) -> u32 {
    let coded = !show_existing;
    let f = with_flag(flags, frame_flags::GOLDEN, coded && refresh.golden_frame);
    let g = with_flag(f, frame_flags::ALTREF, coded && refresh.alt_ref_frame);
    let h = with_flag(g, frame_flags::BWDREF, coded && refresh.bwd_ref_frame);
    with_flag(h, frame_flags::KEY, coded && frame_type == FrameType::Key)
}

/// Only the four refresh bits are ever changed, and updating twice is the same
/// as updating once.
pub proof fn law_update_frame_flags(
    flags: u32,
    refresh: RefreshFrameInfo,
    frame_type: FrameType,
    show_existing: bool,
)
    ensures
        ({
            let r = updated_flags(flags, refresh, frame_type, show_existing);
            &&& r & !15u32 == flags & !15u32
            &&& show_existing ==> r == flags & !15u32
            &&& updated_flags(r, refresh, frame_type, show_existing) == r
        }),
{
    let a: u32 = flag_bit(!show_existing && refresh.golden_frame, 2);
    let b: u32 = flag_bit(!show_existing && refresh.alt_ref_frame, 8);
    let c: u32 = flag_bit(!show_existing && refresh.bwd_ref_frame, 4);
    let d: u32 = flag_bit(!show_existing && frame_type == FrameType::Key, 1);
    lemma_with_flag(flags, 2, !show_existing && refresh.golden_frame);
    let f1 = with_flag(flags, 2, !show_existing && refresh.golden_frame);
    lemma_with_flag(f1, 8, !show_existing && refresh.alt_ref_frame);
    let f2 = with_flag(f1, 8, !show_existing && refresh.alt_ref_frame);
    lemma_with_flag(f2, 4, !show_existing && refresh.bwd_ref_frame);
    let f3 = with_flag(f2, 4, !show_existing && refresh.bwd_ref_frame);
    lemma_with_flag(f3, 1, !show_existing && frame_type == FrameType::Key);
    let r = with_flag(f3, 1, !show_existing && frame_type == FrameType::Key);
    lemma_with_flag(r, 2, !show_existing && refresh.golden_frame);
    let g1 = with_flag(r, 2, !show_existing && refresh.golden_frame);
    lemma_with_flag(g1, 8, !show_existing && refresh.alt_ref_frame);
    let g2 = with_flag(g1, 8, !show_existing && refresh.alt_ref_frame);
    lemma_with_flag(g2, 4, !show_existing && refresh.bwd_ref_frame);
    let g3 = with_flag(g2, 4, !show_existing && refresh.bwd_ref_frame);
    lemma_with_flag(g3, 1, !show_existing && frame_type == FrameType::Key);
    assert(((((flags & !2u32 | a) & !8u32 | b) & !4u32 | c) & !1u32 | d) & !15u32 == flags & !15u32
        && (a == 0 && b == 0 && c == 0 && d == 0 ==> ((((flags & !2u32 | a) & !8u32 | b) & !4u32
        | c) & !1u32 | d) == flags & !15u32)) by (bit_vector)
        requires
            a == 0 || a == 2,
            b == 0 || b == 8,
            c == 0 || c == 4,
            d == 0 || d == 1,
    ;
    let r0: u32 = ((((flags & !2u32 | a) & !8u32 | b) & !4u32 | c) & !1u32 | d);
    assert(((((r0 & !2u32 | a) & !8u32 | b) & !4u32 | c) & !1u32 | d) == r0) by (bit_vector)
        requires
            r0 == ((((flags & !2u32 | a) & !8u32 | b) & !4u32 | c) & !1u32 | d),
            a == 0 || a == 2,
            b == 0 || b == 8,
            c == 0 || c == 4,
            d == 0 || d == 1,
    ;
}

proof fn lemma_with_flag(flags: u32, bit: u32, on: bool)
    ensures
        with_flag(flags, bit, on) == flags & !bit | flag_bit(on, bit),
{
    assert(flags & !bit | 0 == flags & !bit && flags & !bit | bit == flags | bit) by (bit_vector);
}

/// The frame type and the error resilience after outside overrides. A switch
/// frame is always error resilient, a key frame never is made so.
#[must_use]
pub fn apply_ext_overrides(
    frame_type: FrameType,
    use_s_frame: bool,
    use_error_resilient: bool,
) -> (r: (FrameType, bool))
    ensures
        r.0 == if use_s_frame {
            FrameType::Switch
        } else {
            frame_type
        },
        r.1 == ((use_error_resilient && r.0 != FrameType::Key) || r.0 == FrameType::Switch),
{
    let frame_type = if use_s_frame {
        FrameType::Switch
    } else {
        frame_type
    };
    let error_resilient_mode = (use_error_resilient && frame_type != FrameType::Key) || frame_type
        == FrameType::Switch;
    (frame_type, error_resilient_mode)
}

/// No primary reference.
pub const PRIMARY_REF_NONE: i32 = 7;

/// The last of the first `n` entries that equals `wanted`.
pub open spec fn last_match(s: Seq<i32>, wanted: i32, n: int) -> int
    decreases n,
{
    if n <= 0 {
        PRIMARY_REF_NONE as int
    } else if s[n - 1] == wanted {
        n - 1
    } else {
        last_match(s, wanted, n - 1)
    }
}

/// The named reference whose probabilities a frame starts from: the last one
/// that points at the wanted buffer. Intra and error-resilient frames have
/// none.
#[must_use]
pub fn choose_primary_ref_frame(
    frame_type: FrameType,
    error_resilient_mode: bool,
    use_primary_ref_none: bool,
    ref_frame_map_idx: &[i32; INTER_REFS_PER_FRAME],
    wanted_fb: i32,
) -> (r: i32)
    ensures
        r == if is_intra(frame_type) || error_resilient_mode || use_primary_ref_none {
            PRIMARY_REF_NONE as int
        } else {
            last_match(ref_frame_map_idx@, wanted_fb, 7)
        },
{
    if frame_type == FrameType::Key || frame_type == FrameType::IntraOnly || error_resilient_mode
        || use_primary_ref_none {
        return PRIMARY_REF_NONE;
    }
    let mut n: usize = 7;
    while n > 0
        invariant
            n <= 7,
            !is_intra(frame_type),
            !error_resilient_mode,
            !use_primary_ref_none,
            last_match(ref_frame_map_idx@, wanted_fb, 7) == last_match(
                ref_frame_map_idx@,
                wanted_fb,
                n as int,
            ),
        decreases n,
    {
        if ref_frame_map_idx[n - 1] == wanted_fb {
            return (n - 1) as i32;
        }
        n = n - 1;
    }
    PRIMARY_REF_NONE
}

/// Slot `i` is refreshed.
pub open spec fn slot_refreshed(flags: u32, i: int) -> bool {
    (flags >> (i as u32)) & 1 == 1
}

/// The lowest slot that a refresh mask names; `None` when it names none.
#[must_use]
pub fn refresh_ref_frame_map(refresh_frame_flags: u32) -> (r: Option<usize>)
    ensures
        match r {
            Some(k) => k < REF_FRAMES && slot_refreshed(refresh_frame_flags, k as int) && forall|
                i: int,
            |
                0 <= i < k ==> !#[trigger] slot_refreshed(refresh_frame_flags, i),
            None => forall|i: int|
                0 <= i < REF_FRAMES ==> !#[trigger] slot_refreshed(refresh_frame_flags, i),
        },
{
    for i in 0..REF_FRAMES
        invariant
            forall|j: int| 0 <= j < i ==> !#[trigger] slot_refreshed(refresh_frame_flags, j),
    {
        if (refresh_frame_flags >> (i as u32)) & 1 == 1 {
            assert(slot_refreshed(refresh_frame_flags, i as int));
            return Some(i);
        }
        assert(!slot_refreshed(refresh_frame_flags, i as int));
    }
    None
}

/// The occupant of a slot: its level in the pyramid (1 at the top) and its
/// display order, which is -1 for an empty slot.
#[derive(Clone, Copy, Debug, PartialEq, Eq, Structural)]
pub struct RefFrameMapPair {
    pub pyr_level: i32,
    pub disp_order: i32,
}

impl RefFrameMapPair {
    /// An empty slot.
    pub fn empty() -> (r: Self)
        ensures
            r.pyr_level == -1,
            r.disp_order == -1,
    {
        RefFrameMapPair { pyr_level: -1, disp_order: -1 }
    }

    pub open spec fn occupied(self) -> bool {
        self.disp_order != -1
    }

    /// Whether the slot holds a frame.
    #[must_use]
    pub fn is_occupied(&self) -> (r: bool)
        ensures
            r == self.occupied(),
    {
        self.disp_order != -1
    }
}

impl Default for RefFrameMapPair {
    fn default() -> (r: Self)
        ensures
            r.pyr_level == -1,
            r.disp_order == -1,
    {
        RefFrameMapPair::empty()
    }
}

/// The first empty slot among those from `n` on.
pub open spec fn first_empty(pairs: [RefFrameMapPair; 8], n: int) -> Option<int>
    decreases 8 - n,
{
    if n >= 8 {
        None
    } else if !pairs[n].occupied() {
        Some(n)
    } else {
        first_empty(pairs, n + 1)
    }
}

pub open spec fn opt_usize(r: Option<usize>) -> Option<int> {
    match r {
        Some(k) => Some(k as int),
        None => None,
    }
}

/// The first empty slot.
#[must_use]
pub fn free_ref_map_index(pairs: &[RefFrameMapPair; REF_FRAMES]) -> (r: Option<usize>)
    ensures
        opt_usize(r) == first_empty(*pairs, 0),
        r matches Some(k) ==> k < REF_FRAMES,
{
    for i in 0..REF_FRAMES
        invariant
            first_empty(*pairs, 0) == first_empty(*pairs, i as int),
    {
        if !pairs[i].is_occupied() {
            return Some(i);
        }
    }
    None
}

/// The display order is among the protected ones, a list that ends at -1.
pub open spec fn is_protected(skip: Seq<i32>, order: i32, n: int) -> bool
    decreases 8 - n,
{
    if n >= 8 || skip[n] == -1 {
        false
    } else {
        skip[n] == order || is_protected(skip, order, n + 1)
    }
}

fn protected(skip: &[i32; REF_FRAMES], order: i32) -> (r: bool)
    ensures
        r == is_protected(skip@, order, 0),
{
    for i in 0..REF_FRAMES
        invariant
            is_protected(skip@, order, 0) == is_protected(skip@, order, i as int),
    {
        if skip[i] == -1 {
            return false;
        }
        if skip[i] == order {
            return true;
        }
    }
    false
}

/// The occupant of a slot may be overwritten: it is not among the three
/// closest past frames, not a future frame, and not protected.
pub open spec fn replaceable(
    p: RefFrameMapPair,
    skip: Seq<i32>,
    enable_refresh_skip: bool,
    cur_frame_disp: int,
) -> bool {
    &&& p.occupied()
    &&& p.disp_order <= cur_frame_disp - 3
    &&& !(enable_refresh_skip && is_protected(skip, p.disp_order, 0))
}

/// Among the first `n` slots, the one with the oldest replaceable occupant on
/// the top level (or, without `top`, below it); the lowest slot on a tie.
pub open spec fn oldest_slot(
    pairs: [RefFrameMapPair; 8],
    skip: Seq<i32>,
    enable: bool,
    cur: int,
    top: bool,
    n: int,
) -> Option<int>
    decreases n,
{
    if n <= 0 {
        None
    } else {
        let before = oldest_slot(pairs, skip, enable, cur, top, n - 1);
        if replaceable(pairs[n - 1], skip, enable, cur) && (pairs[n - 1].pyr_level == 1) == top && (
        match before {
            Some(b) => pairs[n - 1].disp_order < pairs[b].disp_order,
            None => true,
        }) {
            Some(n - 1)
        } else {
            before
        }
    }
}

/// Number of replaceable top-level occupants among the first `n` slots.
pub open spec fn top_count(
    pairs: [RefFrameMapPair; 8],
    skip: Seq<i32>,
    enable: bool,
    cur: int,
    n: int,
) -> int
    decreases n,
{
    if n <= 0 {
        0
    } else {
        top_count(pairs, skip, enable, cur, n - 1) + (if replaceable(
            pairs[n - 1],
            skip,
            enable,
            cur,
        ) && pairs[n - 1].pyr_level == 1 {
            1int
        } else {
            0
        })
    }
}

/// The slot to overwrite when none is free: the oldest frame below the top
/// level, else the oldest on the top level. When the new frame goes on the top
/// level and more than two such frames are held, the oldest of those.
pub open spec fn replaced_slot(
    pairs: [RefFrameMapPair; 8],
    update_arf: bool,
    skip: Seq<i32>,
    enable: bool,
    cur: int,
) -> Option<int> {
    let top = oldest_slot(pairs, skip, enable, cur, true, 8);
    let low = oldest_slot(pairs, skip, enable, cur, false, 8);
    if update_arf && top_count(pairs, skip, enable, cur, 8) > 2 {
        top
    } else if low is Some {
        low
    } else {
        top
    }
}

/// The slot to overwrite when none is free; `None` when every occupant has to
/// stay.
#[must_use]
pub fn refresh_idx(
    pairs: &[RefFrameMapPair; REF_FRAMES],
    update_arf: bool,
    skip_frame_refresh: &[i32; REF_FRAMES],
    enable_refresh_skip: bool,
    cur_frame_disp: i32,
) -> (r: Option<usize>)
    ensures
        opt_usize(r) == replaced_slot(
            *pairs,
            update_arf,
            skip_frame_refresh@,
            enable_refresh_skip,
            cur_frame_disp as int,
        ),
        r matches Some(k) ==> k < REF_FRAMES,
{
    let mut arf_count: i32 = 0;
    let mut oldest_arf: Option<usize> = None;
    let mut oldest: Option<usize> = None;
    let ghost skip = skip_frame_refresh@;
    let ghost cur = cur_frame_disp as int;
    for i in 0..REF_FRAMES
        invariant
            skip == skip_frame_refresh@,
            cur == cur_frame_disp,
            0 <= arf_count <= i,
            arf_count == top_count(*pairs, skip, enable_refresh_skip, cur, i as int),
            opt_usize(oldest_arf) == oldest_slot(
                *pairs,
                skip,
                enable_refresh_skip,
                cur,
                true,
                i as int,
            ),
            opt_usize(oldest) == oldest_slot(
                *pairs,
                skip,
                enable_refresh_skip,
                cur,
                false,
                i as int,
            ),
            oldest_arf matches Some(k) ==> k < i,
            oldest matches Some(k) ==> k < i,
    {
        let p = &pairs[i];
        let free = p.is_occupied() && p.disp_order as i64 <= cur_frame_disp as i64 - 3 && !(
        enable_refresh_skip && protected(skip_frame_refresh, p.disp_order));
        if free {
            if p.pyr_level == 1 {
                let older = match oldest_arf {
                    Some(k) => p.disp_order < pairs[k].disp_order,
                    None => true,
                };
                if older {
                    oldest_arf = Some(i);
                }
                arf_count = arf_count + 1;
            } else {
                let older = match oldest {
                    Some(k) => p.disp_order < pairs[k].disp_order,
                    None => true,
                };
                if older {
                    oldest = Some(i);
                }
            }
        }
    }
    if update_arf && arf_count > 2 {
        return oldest_arf;
    }
    match oldest {
        Some(k) => Some(k),
        None => oldest_arf,
    }
}

/// The slot an internal alternate reference is written to: a free one, else
/// the one to be replaced.
pub open spec fn intnl_arf_slot(
    pairs: [RefFrameMapPair; 8],
    skip: Seq<i32>,
    enable: bool,
    cur: int,
) -> Option<int> {
    if first_empty(pairs, 0) is Some {
        first_empty(pairs, 0)
    } else {
        replaced_slot(pairs, false, skip, enable, cur)
    }
}

/// The slot an internal alternate reference is written to.
#[must_use]
pub fn calc_refresh_idx_for_intnl_arf(
    pairs: &[RefFrameMapPair; REF_FRAMES],
    skip_frame_refresh: &[i32; REF_FRAMES],
    enable_refresh_skip: bool,
    cur_frame_disp: i32,
) -> (r: Option<usize>)
    ensures
        opt_usize(r) == intnl_arf_slot(
            *pairs,
            skip_frame_refresh@,
            enable_refresh_skip,
            cur_frame_disp as int,
        ),
{
    match free_ref_map_index(pairs) {
        Some(k) => Some(k),
        None => refresh_idx(pairs, false, skip_frame_refresh, enable_refresh_skip, cur_frame_disp),
    }
}

/// The refresh mask of one slot.
pub open spec fn slot_bit(i: int) -> u32 {
    1u32 << (i as u32)
}

/// The refresh mask of one slot, or of none.
#[must_use]
pub fn new_fb_map_idx_rc(new_fb_map_idx: Option<usize>) -> (r: u32)
    requires
        new_fb_map_idx matches Some(k) ==> k < 32,
    ensures
        r == match new_fb_map_idx {
            Some(k) => slot_bit(k as int),
            None => 0,
        },
{
    match new_fb_map_idx {
        Some(idx) => 1u32 << (idx as u32),
        None => 0,
    }
}

pub const LAST_SLOT: usize = 0;

pub const LAST2_SLOT: usize = 1;

pub const LAST3_SLOT: usize = 2;

pub const GOLDEN_SLOT: usize = 3;

pub const BWDREF_SLOT: usize = 4;

pub const ALTREF2_SLOT: usize = 5;

pub const ALTREF_SLOT: usize = 6;

/// Never given a buffer of its own.
pub const EXTREF_SLOT: usize = 7;

/// The mask of the slot that a named reference points at, where `on` holds
/// and it points anywhere.
pub open spec fn named_bit(map: Seq<i32>, named: usize, on: bool) -> u32 {
    if map[named as int] != -1 && on {
        slot_bit(map[named as int] as int)
    } else {
        0
    }
}

/// The mask of the slots that an outside request refreshes. On an overlay the
/// golden flag stands for the alternate reference's slot.
pub open spec fn requested_mask(
    flags: ExtRefreshFrameFlags,
    map: Seq<i32>,
    ty: FrameUpdateType,
) -> u32 {
    let base = named_bit(map, LAST_SLOT, flags.last_frame) | named_bit(
        map,
        EXTREF_SLOT,
        flags.bwd_ref_frame,
    ) | named_bit(map, ALTREF2_SLOT, flags.alt2_ref_frame);
    if ty == FrameUpdateType::Overlay {
        base | named_bit(map, ALTREF_SLOT, flags.golden_frame)
    } else {
        base | named_bit(map, GOLDEN_SLOT, flags.golden_frame) | named_bit(
            map,
            ALTREF_SLOT,
            flags.alt_ref_frame,
        )
    }
}

fn named_mask(map: &[i32; REF_FRAMES], named: usize, on: bool) -> (r: u32)
    requires
        named < 8,
        -1 <= map[named as int] < 32,
    ensures
        r == named_bit(map@, named, on),
{
    let idx: i32 = map[named];
    if idx != -1 && on {
        1u32 << (idx as u32)
    } else {
        0
    }
}

/// The refresh mask a frame writes into its header: everything for a reset or
/// a switch frame; nothing when an existing frame is shown or nothing is
/// requested; what an outside request names; nothing for overlays; else a free
/// slot, or the one to be replaced.
pub open spec fn refresh_mask(
    pairs: [RefFrameMapPair; 8],
    state: RefbufState,
    frame_type: FrameType,
    show_existing: bool,
    ty: FrameUpdateType,
    skip: Seq<i32>,
    enable: bool,
    cur: int,
    ext: Option<(ExtRefreshFrameFlags, Seq<i32>)>,
) -> Option<u32> {
    if state == RefbufState::Reset || frame_type == FrameType::Switch {
        Some(SELECT_ALL_BUF_SLOTS)
    } else if show_existing {
        Some(0)
    } else {
        match ext {
            Some(e) => if e.0.refreshes_nothing() {
                Some(0)
            } else {
                Some(requested_mask(e.0, e.1, ty))
            },
            None => if ty == FrameUpdateType::Overlay || ty == FrameUpdateType::IntnlOverlay {
                Some(0)
            } else {
                let slot = if first_empty(pairs, 0) is Some {
                    first_empty(pairs, 0)
                } else {
                    replaced_slot(pairs, ty == FrameUpdateType::Arf, skip, enable, cur)
                };
                match slot {
                    Some(k) => Some(slot_bit(k)),
                    None => None,
                }
            },
        }
    }
}

/// The refresh mask a frame writes into its header. `ext` carries an outside
/// request and the slots that the named references point at (-1 for none).
/// `None` when no slot may be replaced.
#[must_use]
pub fn get_refresh_frame_flags(
    pairs: &[RefFrameMapPair; REF_FRAMES],
    refbuf_state: RefbufState,
    frame_type: FrameType,
    show_existing_frame: bool,
    update_type: FrameUpdateType,
    skip_frame_refresh: &[i32; REF_FRAMES],
    enable_refresh_skip: bool,
    cur_disp_order: i32,
    ext: Option<(ExtRefreshFrameFlags, &[i32; REF_FRAMES])>,
) -> (r: Option<u32>)
    requires
        ext matches Some(e) ==> forall|i: int| 0 <= i < 8 ==> -1 <= #[trigger] e.1[i] < 32,
    ensures
        r == refresh_mask(
            *pairs,
            refbuf_state,
            frame_type,
            show_existing_frame,
            update_type,
            skip_frame_refresh@,
            enable_refresh_skip,
            cur_disp_order as int,
            match ext {
                Some(e) => Some((e.0, e.1@)),
                None => None,
            },
        ),
{
    if refbuf_state == RefbufState::Reset || frame_type == FrameType::Switch {
        return Some(SELECT_ALL_BUF_SLOTS);
    }
    if show_existing_frame {
        return Some(0);
    }
    if let Some((flags, map)) = ext {
        if flags.is_frame_droppable() {
            return Some(0);
        }
        let base: u32 = named_mask(map, LAST_SLOT, flags.last_frame) | named_mask(
            map,
            EXTREF_SLOT,
            flags.bwd_ref_frame,
        ) | named_mask(map, ALTREF2_SLOT, flags.alt2_ref_frame);
        return if update_type == FrameUpdateType::Overlay {
            Some(base | named_mask(map, ALTREF_SLOT, flags.golden_frame))
        } else {
            Some(
                base | named_mask(map, GOLDEN_SLOT, flags.golden_frame) | named_mask(
                    map,
                    ALTREF_SLOT,
                    flags.alt_ref_frame,
                ),
            )
        };
    }
    if update_type == FrameUpdateType::Overlay || update_type == FrameUpdateType::IntnlOverlay {
        return Some(0);
    }
    let slot = match free_ref_map_index(pairs) {
        Some(k) => Some(k),
        None => refresh_idx(
            pairs,
            update_type == FrameUpdateType::Arf,
            skip_frame_refresh,
            enable_refresh_skip,
            cur_disp_order,
        ),
    };
    match slot {
        Some(k) => Some(1u32 << (k as u32)),
        None => None,
    }
}

/// A buffer that must not be used while another frame is coded in parallel.
#[derive(Clone, Copy, Debug, PartialEq, Eq, Structural)]
pub enum ParallelSkip {
    /// The one in this slot.
    MapIdx(i32),
    /// The one with this display order.
    DispOrder(i32),
}

/// A buffer that the named references can be mapped to.
#[derive(Clone, Copy, Debug, PartialEq, Eq, Structural)]
pub struct RefBuf {
    pub map_idx: usize,
    pub disp_order: i32,
    pub pyr_level: i32,
}

impl ParallelSkip {
    pub open spec fn excludes(self, b: RefBuf) -> bool {
        match self {
            ParallelSkip::MapIdx(idx) => b.map_idx == idx,
            ParallelSkip::DispOrder(order) => b.disp_order == order,
        }
    }

    fn is_excluded(&self, b: &RefBuf) -> (r: bool)
        requires
            b.map_idx < 8,
        ensures
            r == self.excludes(*b),
    {
        match self {
            ParallelSkip::MapIdx(idx) => b.map_idx as i32 == *idx,
            ParallelSkip::DispOrder(order) => b.disp_order == *order,
        }
    }
}

/// Whether a list holds a buffer of this display order.
pub open spec fn holds_order(s: Seq<RefBuf>, order: i32) -> bool {
    exists|i: int| 0 <= i < s.len() && (#[trigger] s[i]).disp_order == order
}

/// `b` put in its place in a list ordered by display order.
pub open spec fn in_order(s: Seq<RefBuf>, b: RefBuf) -> Seq<RefBuf>
    decreases s.len(),
{
    if s.len() == 0 || s.last().disp_order < b.disp_order {
        s.push(b)
    } else {
        in_order(s.drop_last(), b).push(s.last())
    }
}

/// The buffers of the first `n` slots, in display order; of several with one
/// display order the first.
pub open spec fn buffer_list(pairs: [RefFrameMapPair; 8], n: int) -> Seq<RefBuf>
    decreases n,
{
    if n <= 0 {
        Seq::empty()
    } else {
        let s = buffer_list(pairs, n - 1);
        let p = pairs[n - 1];
        if !p.occupied() || holds_order(s, p.disp_order) {
            s
        } else {
            in_order(
                s,
                RefBuf {
                    map_idx: (n - 1) as usize,
                    disp_order: p.disp_order,
                    pyr_level: p.pyr_level,
                },
            )
        }
    }
}

/// Strictly ascending in display order.
pub open spec fn ordered(s: Seq<RefBuf>) -> bool {
    forall|i: int, j: int|
        0 <= i < j < s.len() ==> (#[trigger] s[i]).disp_order < (#[trigger] s[j]).disp_order
}

proof fn lemma_in_order(s: Seq<RefBuf>, b: RefBuf, k: int)
    requires
        0 <= k <= s.len(),
        forall|i: int| 0 <= i < k ==> (#[trigger] s[i]).disp_order < b.disp_order,
        forall|i: int| k <= i < s.len() ==> (#[trigger] s[i]).disp_order >= b.disp_order,
    ensures
        in_order(s, b) == s.insert(k, b),
    decreases s.len(),
{
    if s.len() == 0 || s.last().disp_order < b.disp_order {
        assert(k == s.len());
        assert(s.push(b) =~= s.insert(k, b));
    } else {
        assert(k < s.len());
        lemma_in_order(s.drop_last(), b, k);
        assert(s.drop_last().insert(k, b).push(s.last()) =~= s.insert(k, b));
    }
}

/// The buffers are listed in display order, each display order once, and each
/// entry is the occupant of its slot.
pub proof fn law_buffer_list(pairs: [RefFrameMapPair; 8], n: int)
    requires
        0 <= n <= 8,
    ensures
        ordered(buffer_list(pairs, n)),
        buffer_list(pairs, n).len() <= n,
        forall|i: int|
            0 <= i < buffer_list(pairs, n).len() ==> {
                let b = #[trigger] buffer_list(pairs, n)[i];
                &&& b.map_idx < n
                &&& pairs[b.map_idx as int].occupied()
                &&& pairs[b.map_idx as int].disp_order == b.disp_order
                &&& pairs[b.map_idx as int].pyr_level == b.pyr_level
            },
        forall|k: int|
            0 <= k < n && (#[trigger] pairs[k]).occupied() ==> holds_order(
                buffer_list(pairs, n),
                pairs[k].disp_order,
            ),
    decreases n,
{
    if n > 0 {
        law_buffer_list(pairs, n - 1);
        let s = buffer_list(pairs, n - 1);
        let p = pairs[n - 1];
        if p.occupied() && !holds_order(s, p.disp_order) {
            let b = RefBuf {
                map_idx: (n - 1) as usize,
                disp_order: p.disp_order,
                pyr_level: p.pyr_level,
            };
            let k = lemma_place(s, b);
            lemma_in_order(s, b, k);
            let t = s.insert(k, b);
            assert(t[k] == b);
            assert forall|i: int| 0 <= i < t.len() implies t[i] == (if i < k {
                s[i]
            } else if i == k {
                b
            } else {
                s[i - 1]
            }) by {}
            assert forall|j: int| 0 <= j < n && (#[trigger] pairs[j]).occupied() implies
                holds_order(t, pairs[j].disp_order) by {
                if j == n - 1 {
                    assert(t[k].disp_order == pairs[j].disp_order);
                } else {
                    let i = choose|i: int|
                        0 <= i < s.len() && (#[trigger] s[i]).disp_order == pairs[j].disp_order;
                    assert(s[i] == if i < k {
                        t[i]
                    } else {
                        t[i + 1]
                    });
                }
            }
        }
    }
}

proof fn lemma_place(s: Seq<RefBuf>, b: RefBuf) -> (k: int)
    requires
        ordered(s),
        !holds_order(s, b.disp_order),
    ensures
        0 <= k <= s.len(),
        forall|i: int| 0 <= i < k ==> (#[trigger] s[i]).disp_order < b.disp_order,
        forall|i: int| k <= i < s.len() ==> (#[trigger] s[i]).disp_order > b.disp_order,
    decreases s.len(),
{
    if s.len() == 0 {
        0
    } else if s.last().disp_order < b.disp_order {
        s.len() as int
    } else {
        assert(s[s.len() - 1].disp_order != b.disp_order);
        let t = s.drop_last();
        assert forall|i: int| 0 <= i < t.len() implies (#[trigger] t[i]).disp_order
            != b.disp_order by {
            assert(s[i].disp_order != b.disp_order);
        }
        let k = lemma_place(t, b);
        assert forall|i: int| k <= i < s.len() implies (#[trigger] s[i]).disp_order
            > b.disp_order by {
            if i < t.len() {
                assert(t[i].disp_order > b.disp_order);
            }
        }
        assert forall|i: int| 0 <= i < k implies (#[trigger] s[i]).disp_order
            < b.disp_order by {
            assert(t[i].disp_order < b.disp_order);
        }
        k
    }
}

/// The lowest level among the buffers, at most the number of levels.
pub open spec fn lowest_level(s: Seq<RefBuf>, n: int) -> int
    decreases n,
{
    if n <= 0 {
        MAX_ARF_LAYERS as int
    } else {
        min_int(lowest_level(s, n - 1), s[n - 1].pyr_level as int)
    }
}

/// Number of buffers at a level among the first `n`.
pub open spec fn level_count(s: Seq<RefBuf>, level: int, n: int) -> int
    decreases n,
{
    if n <= 0 {
        0
    } else {
        level_count(s, level, n - 1) + (if s[n - 1].pyr_level == level {
            1int
        } else {
            0
        })
    }
}

/// The largest index below `n` that satisfies `f`.
pub open spec fn newest(f: spec_fn(int) -> bool, n: int) -> Option<int>
    decreases n,
{
    if n <= 0 {
        None
    } else if f(n - 1) {
        Some(n - 1)
    } else {
        newest(f, n - 1)
    }
}

/// The smallest index from `i` on, below `n`, that satisfies `f`.
pub open spec fn oldest(f: spec_fn(int) -> bool, i: int, n: int) -> Option<int>
    decreases n - i,
{
    if i >= n {
        None
    } else if f(i) {
        Some(i)
    } else {
        oldest(f, i + 1, n)
    }
}

/// A mapping in progress: which buffers are taken, and the slot of each named
/// reference (-1 while it has none).
pub struct RefMapping {
    pub used: Seq<bool>,
    pub map: Seq<int>,
}

impl RefMapping {
    /// Named reference `slot` gets buffer `i`.
    pub open spec fn assign(self, bufs: Seq<RefBuf>, slot: int, i: int) -> RefMapping {
        RefMapping {
            used: self.used.update(i, true),
            map: self.map.update(slot, bufs[i].map_idx as int),
        }
    }

    /// The same, if the reference has no buffer yet and there is one to give.
    pub open spec fn fill(self, bufs: Seq<RefBuf>, slot: int, pick: Option<int>) -> RefMapping {
        match pick {
            Some(i) => if self.map[slot] == -1 {
                self.assign(bufs, slot, i)
            } else {
                self
            },
            None => self,
        }
    }

    /// The newest free past buffer.
    pub open spec fn newest_past(self, bufs: Seq<RefBuf>, cur: int) -> Option<int> {
        newest(|i: int| !self.used[i] && bufs[i].disp_order < cur, bufs.len() as int)
    }

    /// The oldest free future buffer.
    pub open spec fn oldest_future(self, bufs: Seq<RefBuf>, cur: int) -> Option<int> {
        oldest(|i: int| !self.used[i] && bufs[i].disp_order > cur, 0, bufs.len() as int)
    }

    /// The newest free buffer that is not past.
    pub open spec fn newest_other(self, bufs: Seq<RefBuf>, cur: int) -> Option<int> {
        newest(|i: int| !self.used[i] && bufs[i].disp_order >= cur, bufs.len() as int)
    }

    pub open spec fn fill_past(self, bufs: Seq<RefBuf>, cur: int, slot: int) -> RefMapping {
        self.fill(bufs, slot, self.newest_past(bufs, cur))
    }

    pub open spec fn fill_future(self, bufs: Seq<RefBuf>, cur: int, slot: int) -> RefMapping {
        self.fill(bufs, slot, self.oldest_future(bufs, cur))
    }

    pub open spec fn fill_other(self, bufs: Seq<RefBuf>, cur: int, slot: int) -> RefMapping {
        self.fill(bufs, slot, self.newest_other(bufs, cur))
    }
}

/// The start of a mapping. A buffer of the current display order, unless it is
/// on the lowest level, is the backward reference. Buffers excluded by
/// parallel coding are taken, and then no other buffer is.
pub open spec fn mapping_start(
    bufs: Seq<RefBuf>,
    cur: int,
    skip: Option<ParallelSkip>,
) -> RefMapping {
    let low = lowest_level(bufs, bufs.len() as int);
    let shown = newest(
        |i: int| bufs[i].pyr_level != low && bufs[i].disp_order == cur,
        bufs.len() as int,
    );
    RefMapping {
        used: Seq::new(
            bufs.len(),
            |i: int|
                match skip {
                    Some(s) => s.excludes(bufs[i]),
                    None => bufs[i].pyr_level != low && bufs[i].disp_order == cur,
                },
        ),
        map: match shown {
            Some(i) => seq![-1int, -1, -1, -1, bufs[i].map_idx as int, -1, -1, -1],
            None => seq![-1int, -1, -1, -1, -1, -1, -1, -1],
        },
    }
}

/// Golden and alternate reference are the newest past and future buffers of
/// the lowest level, where the levels differ at all.
pub open spec fn map_levels(st: RefMapping, bufs: Seq<RefBuf>, cur: int) -> RefMapping {
    let n = bufs.len() as int;
    let low = lowest_level(bufs, n);
    let golden = newest(|i: int| bufs[i].pyr_level == low && bufs[i].disp_order < cur, n);
    let altref = newest(|i: int| bufs[i].pyr_level == low && bufs[i].disp_order > cur, n);
    if level_count(bufs, low, n) < n {
        let a = match golden {
            Some(i) => st.assign(bufs, GOLDEN_SLOT as int, i),
            None => st,
        };
        match altref {
            Some(i) => a.assign(bufs, ALTREF_SLOT as int, i),
            None => a,
        }
    } else {
        st
    }
}

/// The buffer to leave out among the first `k`: the free one farthest from the
/// current frame (the first on a tie), sparing the lowest level while it has
/// few buffers.
pub open spec fn left_out(
    st: RefMapping,
    bufs: Seq<RefBuf>,
    cur: int,
    low: int,
    count: int,
    k: int,
) -> Option<int>
    decreases k,
{
    if k <= 0 {
        None
    } else {
        let before = left_out(st, bufs, cur, low, count, k - 1);
        let farthest = match before {
            Some(b) => abs_int(cur - bufs[b].disp_order),
            None => 0,
        };
        if !st.used[k - 1] && (bufs[k - 1].pyr_level != low || count >= LOW_LEVEL_FRAMES_TR) && abs_int(
            cur - bufs[k - 1].disp_order,
        ) > farthest {
            Some(k - 1)
        } else {
            before
        }
    }
}

/// With more buffers than named references one is left out, unless parallel
/// coding already excludes one.
pub open spec fn leave_one_out(
    st: RefMapping,
    bufs: Seq<RefBuf>,
    cur: int,
    skip: Option<ParallelSkip>,
) -> RefMapping {
    let n = bufs.len() as int;
    let low = lowest_level(bufs, n);
    let excluded = skip matches Some(s) && exists|i: int| 0 <= i < n && s.excludes(#[trigger] bufs[i]);
    if n <= INTER_REFS_PER_FRAME || excluded {
        st
    } else {
        match left_out(st, bufs, cur, low, level_count(bufs, low, n), n) {
            Some(i) => RefMapping { used: st.used.update(i, true), map: st.map },
            None => st,
        }
    }
}

/// The named references in the order they are filled: the three last frames
/// with the newest past buffers, the three future ones with the oldest future
/// buffers, then whatever is open with what is left, past buffers first.
pub open spec fn fill_named(st: RefMapping, bufs: Seq<RefBuf>, cur: int) -> RefMapping {
    let a = st.fill_past(bufs, cur, 0).fill_past(bufs, cur, 1).fill_past(bufs, cur, 2);
    let b = a.fill_future(bufs, cur, 4).fill_future(bufs, cur, 5).fill_future(bufs, cur, 6);
    let c = b.fill_past(bufs, cur, 0).fill_past(bufs, cur, 1).fill_past(bufs, cur, 2).fill_past(
        bufs,
        cur,
        3,
    ).fill_past(bufs, cur, 4).fill_past(bufs, cur, 5).fill_past(bufs, cur, 6);
    c.fill_other(bufs, cur, 6).fill_other(bufs, cur, 5).fill_other(bufs, cur, 4).fill_other(
        bufs,
        cur,
        3,
    ).fill_other(bufs, cur, 2).fill_other(bufs, cur, 1).fill_other(bufs, cur, 0)
}

/// The mapping of the named references to slots, before open ones are sent to
/// slot 0.
pub open spec fn named_mapping(
    pairs: [RefFrameMapPair; 8],
    cur: int,
    skip: Option<ParallelSkip>,
) -> RefMapping {
    let bufs = buffer_list(pairs, 8);
    let start = mapping_start(bufs, cur, skip);
    fill_named(leave_one_out(map_levels(start, bufs, cur), bufs, cur, skip), bufs, cur)
}

struct MapState {
    used: Vec<bool>,
    map: [i32; 8],
}

impl MapState {
    spec fn model(self) -> RefMapping {
        RefMapping { used: self.used@, map: self.map@.map_values(|v: i32| v as int) }
    }

    fn newest_past(&self, bufs: &Vec<RefBuf>, cur: i32) -> (r: Option<usize>)
        requires
            self.used.len() == bufs.len(),
        ensures
            opt_usize(r) == self.model().newest_past(bufs@, cur as int),
            r matches Some(i) ==> i < bufs.len(),
    {
        let ghost st = self.model();
        let ghost f = |i: int| !st.used[i] && bufs@[i].disp_order < cur as int;
        let mut n: usize = bufs.len();
        while n > 0
            invariant
                n <= bufs.len(),
                self.used.len() == bufs.len(),
                st == self.model(),
                f == (|i: int| !st.used[i] && bufs@[i].disp_order < cur as int),
                newest(f, bufs.len() as int) == newest(f, n as int),
            decreases n,
        {
            assert(f(n - 1) == (!self.used@[n - 1] && bufs@[n - 1].disp_order < cur));
            if !self.used[n - 1] && bufs[n - 1].disp_order < cur {
                return Some(n - 1);
            }
            n = n - 1;
        }
        None
    }

    fn newest_other(&self, bufs: &Vec<RefBuf>, cur: i32) -> (r: Option<usize>)
        requires
            self.used.len() == bufs.len(),
        ensures
            opt_usize(r) == self.model().newest_other(bufs@, cur as int),
            r matches Some(i) ==> i < bufs.len(),
    {
        let ghost st = self.model();
        let ghost f = |i: int| !st.used[i] && bufs@[i].disp_order >= cur as int;
        let mut n: usize = bufs.len();
        while n > 0
            invariant
                n <= bufs.len(),
                self.used.len() == bufs.len(),
                st == self.model(),
                f == (|i: int| !st.used[i] && bufs@[i].disp_order >= cur as int),
                newest(f, bufs.len() as int) == newest(f, n as int),
            decreases n,
        {
            assert(f(n - 1) == (!self.used@[n - 1] && bufs@[n - 1].disp_order >= cur));
            if !self.used[n - 1] && bufs[n - 1].disp_order >= cur {
                return Some(n - 1);
            }
            n = n - 1;
        }
        None
    }

    fn oldest_future(&self, bufs: &Vec<RefBuf>, cur: i32) -> (r: Option<usize>)
        requires
            self.used.len() == bufs.len(),
        ensures
            opt_usize(r) == self.model().oldest_future(bufs@, cur as int),
            r matches Some(i) ==> i < bufs.len(),
    {
        let ghost st = self.model();
        let ghost f = |i: int| !st.used[i] && bufs@[i].disp_order > cur as int;
        for n in 0..bufs.len()
            invariant
                self.used.len() == bufs.len(),
                st == self.model(),
                f == (|i: int| !st.used[i] && bufs@[i].disp_order > cur as int),
                oldest(f, 0, bufs.len() as int) == oldest(f, n as int, bufs.len() as int),
        {
            assert(f(n as int) == (!self.used@[n as int] && bufs@[n as int].disp_order > cur));
            if !self.used[n] && bufs[n].disp_order > cur {
                return Some(n);
            }
        }
        None
    }

    fn assign(&mut self, bufs: &Vec<RefBuf>, slot: usize, i: usize)
        requires
            i < bufs.len(),
            bufs@[i as int].map_idx < 8,
            old(self).used.len() == bufs.len(),
            slot < 8,
        ensures
            final(self).model() == old(self).model().assign(bufs@, slot as int, i as int),
            final(self).used.len() == old(self).used.len(),
    {
        let ghost before = self.model();
        self.used.set(i, true);
        self.map[slot] = bufs[i].map_idx as i32;
        assert(self.model().map =~= before.assign(bufs@, slot as int, i as int).map);
    }

    fn fill(&mut self, bufs: &Vec<RefBuf>, slot: usize, pick: Option<usize>)
        requires
            pick matches Some(i) ==> i < bufs.len(),
            forall|i: int| 0 <= i < bufs.len() ==> (#[trigger] bufs[i]).map_idx < 8,
            old(self).used.len() == bufs.len(),
            slot < 8,
        ensures
            final(self).model() == old(self).model().fill(bufs@, slot as int, opt_usize(pick)),
            final(self).used.len() == old(self).used.len(),
    {
        assert(self.model().map[slot as int] == self.map[slot as int]);
        if let Some(i) = pick {
            if self.map[slot] == -1 {
                self.assign(bufs, slot, i);
            }
        }
    }

    fn fill_past(&mut self, bufs: &Vec<RefBuf>, cur: i32, slot: usize)
        requires
            forall|i: int| 0 <= i < bufs.len() ==> (#[trigger] bufs[i]).map_idx < 8,
            old(self).used.len() == bufs.len(),
            slot < 8,
        ensures
            final(self).model() == old(self).model().fill_past(bufs@, cur as int, slot as int),
            final(self).used.len() == old(self).used.len(),
    {
        let pick = self.newest_past(bufs, cur);
        self.fill(bufs, slot, pick);
    }

    fn fill_future(&mut self, bufs: &Vec<RefBuf>, cur: i32, slot: usize)
        requires
            forall|i: int| 0 <= i < bufs.len() ==> (#[trigger] bufs[i]).map_idx < 8,
            old(self).used.len() == bufs.len(),
            slot < 8,
        ensures
            final(self).model() == old(self).model().fill_future(bufs@, cur as int, slot as int),
            final(self).used.len() == old(self).used.len(),
    {
        let pick = self.oldest_future(bufs, cur);
        self.fill(bufs, slot, pick);
    }

    fn fill_other(&mut self, bufs: &Vec<RefBuf>, cur: i32, slot: usize)
        requires
            forall|i: int| 0 <= i < bufs.len() ==> (#[trigger] bufs[i]).map_idx < 8,
            old(self).used.len() == bufs.len(),
            slot < 8,
        ensures
            final(self).model() == old(self).model().fill_other(bufs@, cur as int, slot as int),
            final(self).used.len() == old(self).used.len(),
    {
        let pick = self.newest_other(bufs, cur);
        self.fill(bufs, slot, pick);
    }
}

/// The buffers that can be mapped, in display order.
fn list_buffers(pairs: &[RefFrameMapPair; REF_FRAMES]) -> (r: Vec<RefBuf>)
    ensures
        r@ == buffer_list(*pairs, 8),
        r.len() <= 8,
        forall|i: int| 0 <= i < r.len() ==> (#[trigger] r[i]).map_idx < 8,
        ordered(r@),
{
    let mut bufs: Vec<RefBuf> = Vec::new();
    for n in 0..REF_FRAMES
        invariant
            bufs@ == buffer_list(*pairs, n as int),
    {
        proof {
            law_buffer_list(*pairs, n as int);
        }
        let p = &pairs[n];
        if p.is_occupied() {
            let mut known = false;
            let mut place: usize = 0;
            for i in 0..bufs.len()
                invariant
                    ordered(bufs@),
                    known == exists|j: int|
                        0 <= j < i && (#[trigger] bufs@[j]).disp_order == p.disp_order,
                    place <= i,
                    forall|j: int|
                        0 <= j < place ==> (#[trigger] bufs@[j]).disp_order < p.disp_order,
                    forall|j: int|
                        place <= j < i ==> (#[trigger] bufs@[j]).disp_order >= p.disp_order,
            {
                if bufs[i].disp_order == p.disp_order {
                    known = true;
                }
                if bufs[i].disp_order < p.disp_order {
                    assert forall|j: int| 0 <= j < i implies (#[trigger] bufs@[j]).disp_order
                        < p.disp_order by {
                        assert(bufs@[j].disp_order < bufs@[i as int].disp_order);
                    }
                    place = i + 1;
                }
            }
            assert(known == holds_order(bufs@, p.disp_order));
            if !known {
                let b = RefBuf { map_idx: n, disp_order: p.disp_order, pyr_level: p.pyr_level };
                proof {
                    lemma_in_order(bufs@, b, place as int);
                }
                bufs.insert(place, b);
            }
        }
    }
    proof {
        law_buffer_list(*pairs, 8);
    }
    bufs
}

fn level_figures(bufs: &Vec<RefBuf>) -> (r: (i32, i32))
    requires
        bufs.len() <= 8,
    ensures
        r.0 == lowest_level(bufs@, bufs.len() as int),
        r.1 == level_count(bufs@, r.0 as int, bufs.len() as int),
        0 <= r.1 <= bufs.len(),
{
    let mut low: i32 = MAX_ARF_LAYERS;
    for n in 0..bufs.len()
        invariant
            low == lowest_level(bufs@, n as int),
    {
        if bufs[n].pyr_level < low {
            low = bufs[n].pyr_level;
        }
    }
    let mut count: i32 = 0;
    for n in 0..bufs.len()
        invariant
            bufs.len() <= 8,
            count == level_count(bufs@, low as int, n as int),
            0 <= count <= n,
    {
        if bufs[n].pyr_level == low {
            count = count + 1;
        }
    }
    (low, count)
}

/// The newest buffer of a level before (or, without `past`, after) the current
/// frame.
fn newest_at_level(bufs: &Vec<RefBuf>, low: i32, cur: i32, past: bool) -> (r: Option<usize>)
    ensures
        past ==> opt_usize(r) == newest(
            |i: int| bufs@[i].pyr_level == low as int && bufs@[i].disp_order < cur as int,
            bufs@.len() as int,
        ),
        !past ==> opt_usize(r) == newest(
            |i: int| bufs@[i].pyr_level == low as int && bufs@[i].disp_order > cur as int,
            bufs@.len() as int,
        ),
        r matches Some(i) ==> i < bufs.len(),
{
    let ghost bs = bufs@;
    let ghost before = |i: int| bs[i].pyr_level == low as int && bs[i].disp_order < cur as int;
    let ghost after = |i: int| bs[i].pyr_level == low as int && bs[i].disp_order > cur as int;
    let ghost f = if past {
        before
    } else {
        after
    };
    let mut n: usize = bufs.len();
    while n > 0
        invariant
            n <= bufs.len(),
            bs == bufs@,
            forall|i: int|
                0 <= i < bufs.len() ==> #[trigger] f(i) == (bs[i].pyr_level == low && (if past {
                    bs[i].disp_order < cur
                } else {
                    bs[i].disp_order > cur
                })),
            newest(f, bufs.len() as int) == newest(f, n as int),
        decreases n,
    {
        let b = &bufs[n - 1];
        let side = if past {
            b.disp_order < cur
        } else {
            b.disp_order > cur
        };
        assert(f(n - 1) == (b.pyr_level == low && side));
        if b.pyr_level == low && side {
            proof {
                lemma_same_choice(bs, low, cur, past, f);
            }
            return Some(n - 1);
        }
        n = n - 1;
    }
    proof {
        lemma_same_choice(bs, low, cur, past, f);
    }
    None
}

proof fn lemma_same_choice(
    bs: Seq<RefBuf>,
    low: i32,
    cur: i32,
    past: bool,
    f: spec_fn(int) -> bool,
)
    requires
        forall|i: int|
            0 <= i < bs.len() ==> #[trigger] f(i) == (bs[i].pyr_level == low && (if past {
                bs[i].disp_order < cur
            } else {
                bs[i].disp_order > cur
            })),
    ensures
        past ==> newest(f, bs.len() as int) == newest(
            |i: int| bs[i].pyr_level == low as int && bs[i].disp_order < cur as int,
            bs.len() as int,
        ),
        !past ==> newest(f, bs.len() as int) == newest(
            |i: int| bs[i].pyr_level == low as int && bs[i].disp_order > cur as int,
            bs.len() as int,
        ),
{
    if past {
        lemma_newest_same(
            f,
            |i: int| bs[i].pyr_level == low as int && bs[i].disp_order < cur as int,
            bs.len() as int,
        );
    } else {
        lemma_newest_same(
            f,
            |i: int| bs[i].pyr_level == low as int && bs[i].disp_order > cur as int,
            bs.len() as int,
        );
    }
}

fn start_mapping(
    bufs: &Vec<RefBuf>,
    low: i32,
    cur: i32,
    skip: Option<ParallelSkip>,
) -> (r: (MapState, bool))
    requires
        low == lowest_level(bufs@, bufs.len() as int),
        forall|i: int| 0 <= i < bufs.len() ==> (#[trigger] bufs[i]).map_idx < 8,
    ensures
        r.0.model() == mapping_start(bufs@, cur as int, skip),
        r.0.used.len() == bufs.len(),
        r.1 == (skip matches Some(s) && exists|i: int|
            0 <= i < bufs.len() && s.excludes(#[trigger] bufs@[i])),
{
    let mut map: [i32; 8] = [-1; 8];
    let mut used: Vec<bool> = Vec::new();
    let mut excluded = false;
    let ghost f = |i: int| bufs@[i].pyr_level != low as int && bufs@[i].disp_order == cur as int;
    for n in 0..bufs.len()
        invariant
            forall|i: int| 0 <= i < bufs.len() ==> (#[trigger] bufs[i]).map_idx < 8,
            f == (|i: int| bufs@[i].pyr_level != low as int && bufs@[i].disp_order == cur as int),
            used.len() == n,
            forall|i: int|
                0 <= i < n ==> #[trigger] used@[i] == match skip {
                    Some(s) => s.excludes(bufs@[i]),
                    None => bufs@[i].pyr_level != low && bufs@[i].disp_order == cur,
                },
            excluded == (skip matches Some(s) && exists|i: int|
                0 <= i < n && s.excludes(#[trigger] bufs@[i])),
            map@ == match newest(f, n as int) {
                Some(i) => seq![-1i32, -1i32, -1i32, -1i32, bufs@[i].map_idx as i32, -1i32, -1i32, -1i32],
                None => seq![-1i32, -1i32, -1i32, -1i32, -1i32, -1i32, -1i32, -1i32],
            },
    {
        let b = &bufs[n];
        let shown = b.pyr_level != low && b.disp_order == cur;
        assert(f(n as int) == shown);
        if shown {
            map[BWDREF_SLOT] = b.map_idx as i32;
        }
        let taken = match skip {
            Some(s) => s.is_excluded(b),
            None => shown,
        };
        if skip.is_some() && taken {
            excluded = true;
        }
        used.push(taken);
    }
    let r = MapState { used, map };
    proof {
        let m = mapping_start(bufs@, cur as int, skip);
        assert(r.model().used =~= m.used);
        let g = |i: int| bufs@[i].pyr_level != lowest_level(bufs@, bufs@.len() as int)
            && bufs@[i].disp_order == cur as int;
        lemma_newest_same(f, g, bufs@.len() as int);
        assert(r.model().map =~= m.map);
    }
    (r, excluded)
}

proof fn lemma_newest_same(f: spec_fn(int) -> bool, g: spec_fn(int) -> bool, n: int)
    requires
        forall|i: int| 0 <= i < n ==> #[trigger] f(i) == g(i),
    ensures
        newest(f, n) == newest(g, n),
        newest(f, n) matches Some(i) ==> 0 <= i < n && f(i),
    decreases n,
{
    if n > 0 {
        lemma_newest_same(f, g, n - 1);
        assert(f(n - 1) == g(n - 1));
    }
}

/// The buffer to leave out when there are more than named references.
fn unmapped_ref(
    st: &MapState,
    bufs: &Vec<RefBuf>,
    n_min_level_refs: i32,
    min_level: i32,
    cur_frame_disp: i32,
) -> (r: Option<usize>)
    requires
        st.used.len() == bufs.len(),
    ensures
        opt_usize(r) == if bufs.len() <= INTER_REFS_PER_FRAME {
            None
        } else {
            left_out(
                st.model(),
                bufs@,
                cur_frame_disp as int,
                min_level as int,
                n_min_level_refs as int,
                bufs.len() as int,
            )
        },
        r matches Some(i) ==> i < bufs.len(),
{
    if bufs.len() <= INTER_REFS_PER_FRAME {
        return None;
    }
    let mut max_dist: i64 = 0;
    let mut unmapped: Option<usize> = None;
    for i in 0..bufs.len()
        invariant
            st.used.len() == bufs.len(),
            opt_usize(unmapped) == left_out(
                st.model(),
                bufs@,
                cur_frame_disp as int,
                min_level as int,
                n_min_level_refs as int,
                i as int,
            ),
            match unmapped {
                Some(b) => b < i && max_dist == abs_int(cur_frame_disp - bufs@[b as int].disp_order),
                None => max_dist == 0,
            },
            0 <= max_dist,
    {
        if !st.used[i] && (bufs[i].pyr_level != min_level || n_min_level_refs
            >= LOW_LEVEL_FRAMES_TR) {
            let d: i64 = cur_frame_disp as i64 - bufs[i].disp_order as i64;
            let dist: i64 = if d < 0 { -d } else { d };
            if dist > max_dist {
                max_dist = dist;
                unmapped = Some(i);
            }
        }
    }
    unmapped
}

/// Map the seven named references to slots: entry `i` is the slot of named
/// reference `i`. A reference for which no buffer is left points at slot 0,
/// as does the last entry.
#[must_use]
pub fn get_ref_frames(
    pairs: &[RefFrameMapPair; REF_FRAMES],
    cur_frame_disp: i32,
    parallel_skip: Option<ParallelSkip>,
) -> (r: [i32; REF_FRAMES])
    ensures
        forall|k: int|
            0 <= k < 8 ==> #[trigger] r[k] == {
                let m = named_mapping(*pairs, cur_frame_disp as int, parallel_skip).map[k];
                if m == -1 {
                    0
                } else {
                    m
                }
            },
        forall|k: int| 0 <= k < 8 ==> 0 <= #[trigger] r[k] < 8,
{
    proof {
        law_named_mapping(*pairs, cur_frame_disp as int, parallel_skip);
    }
    let bufs = list_buffers(pairs);
    let ghost bs = bufs@;
    let ghost cur = cur_frame_disp as int;
    let (low, count) = level_figures(&bufs);
    let (mut st, excluded) = start_mapping(&bufs, low, cur_frame_disp, parallel_skip);
    let ghost m0 = st.model();
    let golden_idx = newest_at_level(&bufs, low, cur_frame_disp, true);
    let altref_idx = newest_at_level(&bufs, low, cur_frame_disp, false);
    if (count as usize) < bufs.len() {
        if let Some(i) = golden_idx {
            st.assign(&bufs, GOLDEN_SLOT, i);
        }
        if let Some(i) = altref_idx {
            st.assign(&bufs, ALTREF_SLOT, i);
        }
    }
    let ghost m1 = st.model();
    assert(m1 == map_levels(m0, bs, cur));
    if !excluded {
        if let Some(i) = unmapped_ref(&st, &bufs, count, low, cur_frame_disp) {
            st.used.set(i, true);
        }
    }
    assert(st.model() == leave_one_out(m1, bs, cur, parallel_skip));
    st.fill_past(&bufs, cur_frame_disp, LAST_SLOT);
    st.fill_past(&bufs, cur_frame_disp, LAST2_SLOT);
    st.fill_past(&bufs, cur_frame_disp, LAST3_SLOT);
    st.fill_future(&bufs, cur_frame_disp, BWDREF_SLOT);
    st.fill_future(&bufs, cur_frame_disp, ALTREF2_SLOT);
    st.fill_future(&bufs, cur_frame_disp, ALTREF_SLOT);
    st.fill_past(&bufs, cur_frame_disp, LAST_SLOT);
    st.fill_past(&bufs, cur_frame_disp, LAST2_SLOT);
    st.fill_past(&bufs, cur_frame_disp, LAST3_SLOT);
    st.fill_past(&bufs, cur_frame_disp, GOLDEN_SLOT);
    st.fill_past(&bufs, cur_frame_disp, BWDREF_SLOT);
    st.fill_past(&bufs, cur_frame_disp, ALTREF2_SLOT);
    st.fill_past(&bufs, cur_frame_disp, ALTREF_SLOT);
    st.fill_other(&bufs, cur_frame_disp, ALTREF_SLOT);
    st.fill_other(&bufs, cur_frame_disp, ALTREF2_SLOT);
    st.fill_other(&bufs, cur_frame_disp, BWDREF_SLOT);
    st.fill_other(&bufs, cur_frame_disp, GOLDEN_SLOT);
    st.fill_other(&bufs, cur_frame_disp, LAST3_SLOT);
    st.fill_other(&bufs, cur_frame_disp, LAST2_SLOT);
    st.fill_other(&bufs, cur_frame_disp, LAST_SLOT);
    let ghost done = st.model();
    assert(done == named_mapping(*pairs, cur, parallel_skip));
    let mut remapped: [i32; 8] = st.map;
    for k in 0..REF_FRAMES
        invariant
            done.map == st.map@.map_values(|v: i32| v as int),
            forall|j: int| k <= j < 8 ==> remapped[j] == st.map[j],
            forall|j: int|
                0 <= j < k ==> #[trigger] remapped[j] == if done.map[j] == -1 {
                    0
                } else {
                    done.map[j]
                },
    {
        assert(done.map[k as int] == st.map[k as int]);
        if remapped[k] == -1 {
            remapped[k] = 0;
        }
    }
    remapped
}

/// Take the mapping of the named references from outside; an entry of -1, and
/// the last one, point at slot 0.
#[must_use]
pub fn get_ref_frames_from_ext_map(ref_frame_list: &[i32; INTER_REFS_PER_FRAME]) -> (r: [i32;
    REF_FRAMES])
    ensures
        r[7] == 0,
        forall|k: int|
            0 <= k < 7 ==> #[trigger] r[k] == if ref_frame_list[k] == -1 {
                0
            } else {
                ref_frame_list[k]
            },
{
    let mut remapped: [i32; 8] = [0; 8];
    for k in 0..INTER_REFS_PER_FRAME
        invariant
            forall|j: int| k <= j < 8 ==> remapped[j] == 0,
            forall|j: int|
                0 <= j < k ==> #[trigger] remapped[j] == if ref_frame_list[j] == -1 {
                    0
                } else {
                    ref_frame_list[j]
                },
    {
        if ref_frame_list[k] != -1 {
            remapped[k] = ref_frame_list[k];
        }
    }
    remapped
}

/// Each named reference that has a buffer has one of the list; the last entry
/// has none.
pub open spec fn sound_mapping(st: RefMapping, bufs: Seq<RefBuf>) -> bool {
    &&& st.used.len() == bufs.len()
    &&& st.map.len() == 8
    &&& st.map[7] == -1
    &&& forall|k: int| 0 <= k < 8 && #[trigger] st.map[k] != -1 ==> points_at(bufs, st.map[k])
}

/// A buffer of the list lies in slot `m`.
pub open spec fn points_at(bufs: Seq<RefBuf>, m: int) -> bool {
    exists|i: int| 0 <= i < bufs.len() && (#[trigger] bufs[i]).map_idx == m
}

/// Each buffer serves at most one named reference.
pub open spec fn no_sharing(st: RefMapping, bufs: Seq<RefBuf>) -> bool {
    &&& forall|j: int, k: int|
        0 <= j < k < 8 && st.map[j] != -1 ==> #[trigger] st.map[j] != #[trigger] st.map[k]
    &&& forall|k: int, i: int|
        0 <= k < 8 && 0 <= i < bufs.len() && #[trigger] st.map[k] == (
        #[trigger] bufs[i]).map_idx as int ==> st.used[i]
}

proof fn lemma_assign(st: RefMapping, bufs: Seq<RefBuf>, slot: int, i: int)
    requires
        sound_mapping(st, bufs),
        0 <= slot < 7,
        0 <= i < bufs.len(),
        forall|a: int, b: int|
            0 <= a < b < bufs.len() ==> (#[trigger] bufs[a]).map_idx != (#[trigger] bufs[b]).map_idx,
    ensures
        sound_mapping(st.assign(bufs, slot, i), bufs),
        no_sharing(st, bufs) && !st.used[i] ==> no_sharing(st.assign(bufs, slot, i), bufs),
{
    let t = st.assign(bufs, slot, i);
    assert forall|k: int| 0 <= k < 8 && #[trigger] t.map[k] != -1 implies points_at(
        bufs,
        t.map[k],
    ) by {
        if k == slot {
            assert(bufs[i].map_idx == t.map[k]);
        } else {
            assert(t.map[k] == st.map[k]);
        }
    }
    if no_sharing(st, bufs) && !st.used[i] {
        assert forall|j: int, k: int| 0 <= j < k < 8 && t.map[j] != -1 implies #[trigger] t.map[j]
            != #[trigger] t.map[k] by {
            assert(st.map[j] != bufs[i].map_idx as int);
            assert(st.map[k] != bufs[i].map_idx as int);
        }
        assert forall|k: int, a: int|
            0 <= k < 8 && 0 <= a < bufs.len() && #[trigger] t.map[k] == (
            #[trigger] bufs[a]).map_idx as int implies t.used[a] by {
            if k != slot {
                assert(st.map[k] == t.map[k]);
            } else if a < i {
                assert(bufs[a].map_idx != bufs[i].map_idx);
            } else if i < a {
                assert(bufs[i].map_idx != bufs[a].map_idx);
            }
        }
    }
}

proof fn lemma_newest_meets(f: spec_fn(int) -> bool, n: int)
    ensures
        newest(f, n) matches Some(i) ==> 0 <= i < n && f(i),
    decreases n,
{
    if n > 0 && !f(n - 1) {
        lemma_newest_meets(f, n - 1);
    }
}

proof fn lemma_oldest_meets(f: spec_fn(int) -> bool, i: int, n: int)
    requires
        0 <= i,
    ensures
        oldest(f, i, n) matches Some(k) ==> i <= k < n && f(k),
    decreases n - i,
{
    if i < n && !f(i) {
        lemma_oldest_meets(f, i + 1, n);
    }
}

/// A mapping that is sound, and in which nothing is shared where `apart`.
spec fn fair(st: RefMapping, bufs: Seq<RefBuf>, apart: bool) -> bool {
    &&& sound_mapping(st, bufs)
    &&& apart ==> no_sharing(st, bufs)
    &&& forall|a: int, b: int|
        0 <= a < b < bufs.len() ==> (#[trigger] bufs[a]).map_idx != (#[trigger] bufs[b]).map_idx
}

proof fn lemma_fill_past(st: RefMapping, bufs: Seq<RefBuf>, cur: int, slot: int, apart: bool)
    requires
        fair(st, bufs, apart),
        0 <= slot < 7,
    ensures
        fair(st.fill_past(bufs, cur, slot), bufs, apart),
{
    lemma_newest_meets(
        |i: int| !st.used[i] && bufs[i].disp_order < cur,
        bufs.len() as int,
    );
    if let Some(i) = st.newest_past(bufs, cur) {
        lemma_assign(st, bufs, slot, i);
    }
}

proof fn lemma_fill_other(st: RefMapping, bufs: Seq<RefBuf>, cur: int, slot: int, apart: bool)
    requires
        fair(st, bufs, apart),
        0 <= slot < 7,
    ensures
        fair(st.fill_other(bufs, cur, slot), bufs, apart),
{
    lemma_newest_meets(
        |i: int| !st.used[i] && bufs[i].disp_order >= cur,
        bufs.len() as int,
    );
    if let Some(i) = st.newest_other(bufs, cur) {
        lemma_assign(st, bufs, slot, i);
    }
}

proof fn lemma_fill_future(st: RefMapping, bufs: Seq<RefBuf>, cur: int, slot: int, apart: bool)
    requires
        fair(st, bufs, apart),
        0 <= slot < 7,
    ensures
        fair(st.fill_future(bufs, cur, slot), bufs, apart),
{
    lemma_oldest_meets(
        |i: int| !st.used[i] && bufs[i].disp_order > cur,
        0,
        bufs.len() as int,
    );
    if let Some(i) = st.oldest_future(bufs, cur) {
        lemma_assign(st, bufs, slot, i);
    }
}

proof fn lemma_fill_named(st: RefMapping, bufs: Seq<RefBuf>, cur: int, apart: bool)
    requires
        fair(st, bufs, apart),
    ensures
        fair(fill_named(st, bufs, cur), bufs, apart),
{
    let a0 = st.fill_past(bufs, cur, 0);
    lemma_fill_past(st, bufs, cur, 0, apart);
    let a1 = a0.fill_past(bufs, cur, 1);
    lemma_fill_past(a0, bufs, cur, 1, apart);
    let a = a1.fill_past(bufs, cur, 2);
    lemma_fill_past(a1, bufs, cur, 2, apart);
    let b4 = a.fill_future(bufs, cur, 4);
    lemma_fill_future(a, bufs, cur, 4, apart);
    let b5 = b4.fill_future(bufs, cur, 5);
    lemma_fill_future(b4, bufs, cur, 5, apart);
    let b = b5.fill_future(bufs, cur, 6);
    lemma_fill_future(b5, bufs, cur, 6, apart);
    let c0 = b.fill_past(bufs, cur, 0);
    lemma_fill_past(b, bufs, cur, 0, apart);
    let c1 = c0.fill_past(bufs, cur, 1);
    lemma_fill_past(c0, bufs, cur, 1, apart);
    let c2 = c1.fill_past(bufs, cur, 2);
    lemma_fill_past(c1, bufs, cur, 2, apart);
    let c3 = c2.fill_past(bufs, cur, 3);
    lemma_fill_past(c2, bufs, cur, 3, apart);
    let c4 = c3.fill_past(bufs, cur, 4);
    lemma_fill_past(c3, bufs, cur, 4, apart);
    let c5 = c4.fill_past(bufs, cur, 5);
    lemma_fill_past(c4, bufs, cur, 5, apart);
    let c = c5.fill_past(bufs, cur, 6);
    lemma_fill_past(c5, bufs, cur, 6, apart);
    let d6 = c.fill_other(bufs, cur, 6);
    lemma_fill_other(c, bufs, cur, 6, apart);
    let d5 = d6.fill_other(bufs, cur, 5);
    lemma_fill_other(d6, bufs, cur, 5, apart);
    let d4 = d5.fill_other(bufs, cur, 4);
    lemma_fill_other(d5, bufs, cur, 4, apart);
    let d3 = d4.fill_other(bufs, cur, 3);
    lemma_fill_other(d4, bufs, cur, 3, apart);
    let d2 = d3.fill_other(bufs, cur, 2);
    lemma_fill_other(d3, bufs, cur, 2, apart);
    let d1 = d2.fill_other(bufs, cur, 1);
    lemma_fill_other(d2, bufs, cur, 1, apart);
    lemma_fill_other(d1, bufs, cur, 0, apart);
}

proof fn lemma_start_is_fair(pairs: [RefFrameMapPair; 8], cur: int, skip: Option<ParallelSkip>)
    ensures
        fair(
            map_levels(mapping_start(buffer_list(pairs, 8), cur, skip), buffer_list(pairs, 8), cur),
            buffer_list(pairs, 8),
            skip is None,
        ),
{
    let bufs = buffer_list(pairs, 8);
    let n = bufs.len() as int;
    let low = lowest_level(bufs, n);
    law_buffer_list(pairs, 8);
    assert forall|a: int, b: int| 0 <= a < b < bufs.len() implies (#[trigger] bufs[a]).map_idx != (
    #[trigger] bufs[b]).map_idx by {
        assert(bufs[a].disp_order < bufs[b].disp_order);
        assert(pairs[bufs[a].map_idx as int].disp_order == bufs[a].disp_order);
        assert(pairs[bufs[b].map_idx as int].disp_order == bufs[b].disp_order);
    }
    let st = mapping_start(bufs, cur, skip);
    let f = |i: int| bufs[i].pyr_level != low && bufs[i].disp_order == cur;
    let g = |i: int| bufs[i].pyr_level == low && bufs[i].disp_order < cur;
    let h = |i: int| bufs[i].pyr_level == low && bufs[i].disp_order > cur;
    lemma_newest_meets(f, n);
    lemma_newest_meets(g, n);
    lemma_newest_meets(h, n);
    if let Some(i) = newest(f, n) {
        assert(bufs[i].map_idx == st.map[4]);
    }
    assert(fair(st, bufs, skip is None));
    if level_count(bufs, low, n) < n {
        let a = match newest(g, n) {
            Some(i) => st.assign(bufs, GOLDEN_SLOT as int, i),
            None => st,
        };
        if let Some(i) = newest(g, n) {
            lemma_assign(st, bufs, GOLDEN_SLOT as int, i);
        }
        if let Some(i) = newest(h, n) {
            if let Some(j) = newest(g, n) {
                assert(i != j);
            }
            lemma_assign(a, bufs, ALTREF_SLOT as int, i);
        }
    }
}

/// Number of the first `n` buffers that are taken.
spec fn taken(used: Seq<bool>, n: int) -> int
    decreases n,
{
    if n <= 0 {
        0
    } else {
        taken(used, n - 1) + (if used[n - 1] {
            1int
        } else {
            0
        })
    }
}

/// Number of the first `n` references that have a buffer.
spec fn named(map: Seq<int>, n: int) -> int
    decreases n,
{
    if n <= 0 {
        0
    } else {
        named(map, n - 1) + (if map[n - 1] != -1 {
            1int
        } else {
            0
        })
    }
}

proof fn lemma_taken_update(used: Seq<bool>, i: int, n: int)
    requires
        0 <= i < used.len(),
        n <= used.len(),
        !used[i],
    ensures
        taken(used.update(i, true), n) == taken(used, n) + (if i < n {
            1int
        } else {
            0
        }),
    decreases n,
{
    if n > 0 {
        lemma_taken_update(used, i, n - 1);
    }
}

proof fn lemma_named_update(map: Seq<int>, slot: int, m: int, n: int)
    requires
        0 <= slot < map.len(),
        n <= map.len(),
        map[slot] == -1,
        m != -1,
    ensures
        named(map.update(slot, m), n) == named(map, n) + (if slot < n {
            1int
        } else {
            0
        }),
    decreases n,
{
    if n > 0 {
        lemma_named_update(map, slot, m, n - 1);
    }
}

proof fn lemma_all_taken(used: Seq<bool>, n: int)
    requires
        n <= used.len(),
        forall|i: int| 0 <= i < n ==> #[trigger] used[i],
    ensures
        n >= 0 ==> taken(used, n) == n,
    decreases n,
{
    if n > 0 {
        lemma_all_taken(used, n - 1);
    }
}

proof fn lemma_one_unnamed(map: Seq<int>, k: int, n: int)
    requires
        0 <= n <= map.len(),
        0 <= k,
        k < n ==> map[k] == -1,
    ensures
        named(map, n) <= n - (if k < n {
            1int
        } else {
            0
        }),
    decreases n,
{
    if n > 0 {
        lemma_one_unnamed(map, k, n - 1);
    }
}

/// How many buffers are taken without being named.
spec fn spare(st: RefMapping) -> int {
    taken(st.used, st.used.len() as int) - named(st.map, 7)
}

/// Reference `k` has a buffer, or no past (or other) buffer is free.
spec fn past_done(st: RefMapping, bufs: Seq<RefBuf>, cur: int, k: int) -> bool {
    st.map[k] != -1 || forall|i: int|
        0 <= i < bufs.len() && bufs[i].disp_order < cur ==> #[trigger] st.used[i]
}

spec fn other_done(st: RefMapping, bufs: Seq<RefBuf>, cur: int, k: int) -> bool {
    st.map[k] != -1 || forall|i: int|
        0 <= i < bufs.len() && bufs[i].disp_order >= cur ==> #[trigger] st.used[i]
}

/// A step of the mapping keeps what is settled, and names each buffer it takes.
spec fn is_step(st: RefMapping, t: RefMapping, bufs: Seq<RefBuf>, cur: int) -> bool {
    &&& t.used.len() == bufs.len()
    &&& t.map.len() == 8
    &&& spare(t) == spare(st)
    &&& forall|k: int| 0 <= k < 7 && past_done(st, bufs, cur, k) ==> #[trigger] past_done(
        t,
        bufs,
        cur,
        k,
    )
    &&& forall|k: int| 0 <= k < 7 && other_done(st, bufs, cur, k) ==> #[trigger] other_done(
        t,
        bufs,
        cur,
        k,
    )
}

proof fn lemma_fill_is_step(
    st: RefMapping,
    bufs: Seq<RefBuf>,
    cur: int,
    slot: int,
    pick: Option<int>,
)
    requires
        st.used.len() == bufs.len(),
        st.map.len() == 8,
        0 <= slot < 7,
        pick matches Some(i) ==> 0 <= i < bufs.len() && !st.used[i],
    ensures
        is_step(st, st.fill(bufs, slot, pick), bufs, cur),
{
    let t = st.fill(bufs, slot, pick);
    if let Some(i) = pick {
        if st.map[slot] == -1 {
            lemma_taken_update(st.used, i, bufs.len() as int);
            lemma_named_update(st.map, slot, bufs[i].map_idx as int, 7);
            assert forall|k: int| 0 <= k < 7 && past_done(st, bufs, cur, k) implies
                #[trigger] past_done(t, bufs, cur, k) by {
                assert(st.map[k] != -1 ==> t.map[k] != -1);
                assert forall|j: int| 0 <= j < bufs.len() && st.used[j] implies
                    #[trigger] t.used[j] by {}
            }
            assert forall|k: int| 0 <= k < 7 && other_done(st, bufs, cur, k) implies
                #[trigger] other_done(t, bufs, cur, k) by {
                assert(st.map[k] != -1 ==> t.map[k] != -1);
                assert forall|j: int| 0 <= j < bufs.len() && st.used[j] implies
                    #[trigger] t.used[j] by {}
            }
        }
    }
}

proof fn lemma_newest_none(f: spec_fn(int) -> bool, n: int)
    requires
        newest(f, n) is None,
    ensures
        forall|i: int| 0 <= i < n ==> !#[trigger] f(i),
    decreases n,
{
    if n > 0 {
        lemma_newest_none(f, n - 1);
    }
}

proof fn lemma_settles_past(st: RefMapping, bufs: Seq<RefBuf>, cur: int, slot: int)
    requires
        st.used.len() == bufs.len(),
        st.map.len() == 8,
        0 <= slot < 7,
    ensures
        is_step(st, st.fill_past(bufs, cur, slot), bufs, cur),
        past_done(st.fill_past(bufs, cur, slot), bufs, cur, slot),
{
    let n = bufs.len() as int;
    let f = |i: int| !st.used[i] && bufs[i].disp_order < cur;
    lemma_newest_meets(f, n);
    lemma_fill_is_step(st, bufs, cur, slot, newest(f, n));
    if newest(f, n) is None {
        lemma_newest_none(f, n);
        assert forall|i: int| 0 <= i < n && bufs[i].disp_order < cur implies
            #[trigger] st.used[i] by {
            assert(!f(i));
        }
    }
}

proof fn lemma_settles_other(st: RefMapping, bufs: Seq<RefBuf>, cur: int, slot: int)
    requires
        st.used.len() == bufs.len(),
        st.map.len() == 8,
        0 <= slot < 7,
    ensures
        is_step(st, st.fill_other(bufs, cur, slot), bufs, cur),
        other_done(st.fill_other(bufs, cur, slot), bufs, cur, slot),
{
    let n = bufs.len() as int;
    let f = |i: int| !st.used[i] && bufs[i].disp_order >= cur;
    lemma_newest_meets(f, n);
    lemma_fill_is_step(st, bufs, cur, slot, newest(f, n));
    if newest(f, n) is None {
        lemma_newest_none(f, n);
        assert forall|i: int| 0 <= i < n && bufs[i].disp_order >= cur implies
            #[trigger] st.used[i] by {
            assert(!f(i));
        }
    }
}

proof fn lemma_settles_future(st: RefMapping, bufs: Seq<RefBuf>, cur: int, slot: int)
    requires
        st.used.len() == bufs.len(),
        st.map.len() == 8,
        0 <= slot < 7,
    ensures
        is_step(st, st.fill_future(bufs, cur, slot), bufs, cur),
{
    let n = bufs.len() as int;
    let f = |i: int| !st.used[i] && bufs[i].disp_order > cur;
    lemma_oldest_meets(f, 0, n);
    lemma_fill_is_step(st, bufs, cur, slot, oldest(f, 0, n));
}

/// After all steps a reference is without a buffer only where every buffer is
/// taken.
proof fn lemma_named_is_settled(st: RefMapping, bufs: Seq<RefBuf>, cur: int)
    requires
        st.used.len() == bufs.len(),
        st.map.len() == 8,
    ensures
        ({
            let t = fill_named(st, bufs, cur);
            &&& t.used.len() == bufs.len()
            &&& t.map.len() == 8
            &&& spare(t) == spare(st)
            &&& forall|k: int| 0 <= k < 7 ==> #[trigger] past_done(t, bufs, cur, k)
            &&& forall|k: int| 0 <= k < 7 ==> #[trigger] other_done(t, bufs, cur, k)
        }),
{
    let m1 = st.fill_past(bufs, cur, 0);
    lemma_settles_past(st, bufs, cur, 0);
    let m2 = m1.fill_past(bufs, cur, 1);
    lemma_settles_past(m1, bufs, cur, 1);
    let m3 = m2.fill_past(bufs, cur, 2);
    lemma_settles_past(m2, bufs, cur, 2);
    let m4 = m3.fill_future(bufs, cur, 4);
    lemma_settles_future(m3, bufs, cur, 4);
    let m5 = m4.fill_future(bufs, cur, 5);
    lemma_settles_future(m4, bufs, cur, 5);
    let m6 = m5.fill_future(bufs, cur, 6);
    lemma_settles_future(m5, bufs, cur, 6);
    let m7 = m6.fill_past(bufs, cur, 0);
    lemma_settles_past(m6, bufs, cur, 0);
    let m8 = m7.fill_past(bufs, cur, 1);
    lemma_settles_past(m7, bufs, cur, 1);
    let m9 = m8.fill_past(bufs, cur, 2);
    lemma_settles_past(m8, bufs, cur, 2);
    let m10 = m9.fill_past(bufs, cur, 3);
    lemma_settles_past(m9, bufs, cur, 3);
    let m11 = m10.fill_past(bufs, cur, 4);
    lemma_settles_past(m10, bufs, cur, 4);
    let m12 = m11.fill_past(bufs, cur, 5);
    lemma_settles_past(m11, bufs, cur, 5);
    let m13 = m12.fill_past(bufs, cur, 6);
    lemma_settles_past(m12, bufs, cur, 6);
    let m14 = m13.fill_other(bufs, cur, 6);
    lemma_settles_other(m13, bufs, cur, 6);
    let m15 = m14.fill_other(bufs, cur, 5);
    lemma_settles_other(m14, bufs, cur, 5);
    let m16 = m15.fill_other(bufs, cur, 4);
    lemma_settles_other(m15, bufs, cur, 4);
    let m17 = m16.fill_other(bufs, cur, 3);
    lemma_settles_other(m16, bufs, cur, 3);
    let m18 = m17.fill_other(bufs, cur, 2);
    lemma_settles_other(m17, bufs, cur, 2);
    let m19 = m18.fill_other(bufs, cur, 1);
    lemma_settles_other(m18, bufs, cur, 1);
    let m20 = m19.fill_other(bufs, cur, 0);
    lemma_settles_other(m19, bufs, cur, 0);
}

/// Before the references are filled, every buffer that is taken is named, but
/// for the one that is left out.
proof fn lemma_spare_at_start(pairs: [RefFrameMapPair; 8], cur: int)
    ensures
        ({
            let bufs = buffer_list(pairs, 8);
            let st = leave_one_out(
                map_levels(mapping_start(bufs, cur, None), bufs, cur),
                bufs,
                cur,
                None,
            );
            &&& st.used.len() == bufs.len()
            &&& st.map.len() == 8
            &&& spare(st) <= (if bufs.len() <= 7 {
                0int
            } else {
                1
            })
        }),
{
    let bufs = buffer_list(pairs, 8);
    let n = bufs.len() as int;
    let low = lowest_level(bufs, n);
    law_buffer_list(pairs, 8);
    let st = mapping_start(bufs, cur, None);
    let f = |i: int| bufs[i].pyr_level != low && bufs[i].disp_order == cur;
    let g = |i: int| bufs[i].pyr_level == low && bufs[i].disp_order < cur;
    let h = |i: int| bufs[i].pyr_level == low && bufs[i].disp_order > cur;
    lemma_newest_meets(f, n);
    lemma_newest_meets(g, n);
    lemma_newest_meets(h, n);
    let none = Seq::new(bufs.len(), |i: int| false);
    lemma_none_taken(none, n);
    let open = seq![-1int, -1, -1, -1, -1, -1, -1, -1];
    reveal_with_fuel(named, 8);
    assert(named(open, 7) == 0);
    match newest(f, n) {
        Some(i) => {
            lemma_taken_update(none, i, n);
            assert forall|j: int| 0 <= j < n && j != i implies !#[trigger] f(j) by {
                if j < i {
                    assert(bufs[j].disp_order < bufs[i].disp_order);
                } else {
                    assert(bufs[i].disp_order < bufs[j].disp_order);
                }
            }
            assert forall|j: int| 0 <= j < n implies #[trigger] st.used[j] == none.update(
                i,
                true,
            )[j] by {
                assert(st.used[j] == f(j));
            }
            assert(st.used =~= none.update(i, true));
            assert(named(st.map, 7) == 1);
        },
        None => {
            lemma_newest_none(f, n);
            assert forall|j: int| 0 <= j < n implies #[trigger] st.used[j] == none[j] by {
                assert(st.used[j] == f(j));
            }
            assert(st.used =~= none);
            assert(st.map =~= open);
        },
    }
    assert(spare(st) == 0);
    let t = map_levels(st, bufs, cur);
    if level_count(bufs, low, n) < n {
        let a = match newest(g, n) {
            Some(i) => st.assign(bufs, GOLDEN_SLOT as int, i),
            None => st,
        };
        if let Some(i) = newest(g, n) {
            assert(st.map[GOLDEN_SLOT as int] == -1);
            assert(a == st.fill(bufs, GOLDEN_SLOT as int, Some(i)));
            lemma_fill_is_step(st, bufs, cur, GOLDEN_SLOT as int, Some(i));
        }
        if let Some(i) = newest(h, n) {
            if let Some(j) = newest(g, n) {
                assert(i != j);
            }
            assert(a.map[ALTREF_SLOT as int] == -1);
            assert(t == a.fill(bufs, ALTREF_SLOT as int, Some(i)));
            lemma_fill_is_step(a, bufs, cur, ALTREF_SLOT as int, Some(i));
        }
    }
    assert(spare(t) == 0 && t.used.len() == n && t.map.len() == 8);
    if n > 7 {
        let count = level_count(bufs, low, n);
        lemma_left_out(t, bufs, cur, low, count, n);
        if let Some(i) = left_out(t, bufs, cur, low, count, n) {
            lemma_taken_update(t.used, i, n);
        }
    }
}

proof fn lemma_none_taken(used: Seq<bool>, n: int)
    requires
        n <= used.len(),
        forall|i: int| 0 <= i < n ==> !#[trigger] used[i],
    ensures
        taken(used, n) == 0,
    decreases n,
{
    if n > 0 {
        lemma_none_taken(used, n - 1);
    }
}

/// Outside parallel coding, seven buffers of different display orders are
/// enough for every named reference to have one of its own.
proof fn lemma_seven_buffers_name_all(pairs: [RefFrameMapPair; 8], cur: int)
    requires
        buffer_list(pairs, 8).len() >= 7,
    ensures
        forall|k: int| 0 <= k < 7 ==> #[trigger] named_mapping(pairs, cur, None).map[k] != -1,
{
    let bufs = buffer_list(pairs, 8);
    let n = bufs.len() as int;
    let s = leave_one_out(map_levels(mapping_start(bufs, cur, None), bufs, cur), bufs, cur, None);
    let t = named_mapping(pairs, cur, None);
    law_buffer_list(pairs, 8);
    lemma_spare_at_start(pairs, cur);
    lemma_named_is_settled(s, bufs, cur);
    assert forall|k: int| 0 <= k < 7 implies #[trigger] t.map[k] != -1 by {
        assert(past_done(t, bufs, cur, k) && other_done(t, bufs, cur, k));
        if t.map[k] == -1 {
            lemma_all_taken(t.used, n);
            lemma_one_unnamed(t.map, k, 7);
        }
    }
}

/// Every entry of the mapping is a slot, and each reference that is not sent to
/// slot 0 for want of a buffer points at an occupied slot. Outside parallel
/// coding no two of those point at the same slot, nor at frames of the same
/// display order, and with seven or more buffers to map every named reference
/// has one.
pub proof fn law_named_mapping(pairs: [RefFrameMapPair; 8], cur: int, skip: Option<ParallelSkip>)
    ensures
        ({
            let m = named_mapping(pairs, cur, skip).map;
            &&& m.len() == 8
            &&& m[7] == -1
            &&& forall|k: int|
                0 <= k < 8 && #[trigger] m[k] != -1 ==> 0 <= m[k] < 8 && pairs[m[k]].occupied()
            &&& skip is None ==> forall|j: int, k: int|
                0 <= j < k < 8 && m[j] != -1 ==> #[trigger] m[j] != #[trigger] m[k]
            &&& skip is None ==> forall|j: int, k: int|
                0 <= j < k < 8 && #[trigger] m[j] != -1 && #[trigger] m[k] != -1
                    ==> pairs[m[j]].disp_order != pairs[m[k]].disp_order
            &&& skip is None && buffer_list(pairs, 8).len() >= 7 ==> forall|k: int|
                0 <= k < 7 ==> #[trigger] m[k] != -1
        }),
{
    let bufs = buffer_list(pairs, 8);
    let apart = skip is None;
    let s0 = mapping_start(bufs, cur, skip);
    let s1 = map_levels(s0, bufs, cur);
    lemma_start_is_fair(pairs, cur, skip);
    let s2 = leave_one_out(s1, bufs, cur, skip);
    let n = bufs.len() as int;
    let low = lowest_level(bufs, n);
    lemma_left_out(s1, bufs, cur, low, level_count(bufs, low, n), n);
    assert(fair(s2, bufs, apart));
    lemma_fill_named(s2, bufs, cur, apart);
    let m = named_mapping(pairs, cur, skip).map;
    law_buffer_list(pairs, 8);
    assert forall|k: int| 0 <= k < 8 && #[trigger] m[k] != -1 implies 0 <= m[k] < 8
        && pairs[m[k]].occupied() by {
        assert(points_at(bufs, m[k]));
    }
    if skip is None {
        assert forall|j: int, k: int|
            0 <= j < k < 8 && #[trigger] m[j] != -1 && #[trigger] m[k] != -1 implies pairs[m[j]].disp_order
            != pairs[m[k]].disp_order by {
            assert(points_at(bufs, m[j]) && points_at(bufs, m[k]));
            let a = choose|i: int| 0 <= i < bufs.len() && (#[trigger] bufs[i]).map_idx == m[j];
            let b = choose|i: int| 0 <= i < bufs.len() && (#[trigger] bufs[i]).map_idx == m[k];
            assert(a != b);
            if a < b {
                assert(bufs[a].disp_order < bufs[b].disp_order);
            } else {
                assert(bufs[b].disp_order < bufs[a].disp_order);
            }
        }
        if bufs.len() >= 7 {
            lemma_seven_buffers_name_all(pairs, cur);
        }
    }
}

proof fn lemma_left_out(
    st: RefMapping,
    bufs: Seq<RefBuf>,
    cur: int,
    low: int,
    count: int,
    k: int,
)
    ensures
        left_out(st, bufs, cur, low, count, k) matches Some(i) ==> 0 <= i < k && !st.used[i],
    decreases k,
{
    if k > 0 {
        lemma_left_out(st, bufs, cur, low, count, k - 1);
    }
}

proof fn lemma_oldest_slot(
    pairs: [RefFrameMapPair; 8],
    skip: Seq<i32>,
    enable: bool,
    cur: int,
    top: bool,
    n: int,
)
    requires
        0 <= n <= 8,
    ensures
        match oldest_slot(pairs, skip, enable, cur, top, n) {
            Some(k) => {
                &&& 0 <= k < n
                &&& replaceable(pairs[k], skip, enable, cur)
                &&& (pairs[k].pyr_level == 1) == top
                &&& forall|i: int|
                    0 <= i < n && replaceable(#[trigger] pairs[i], skip, enable, cur) && (
                    pairs[i].pyr_level == 1) == top ==> pairs[k].disp_order <= pairs[i].disp_order
            },
            None => forall|i: int|
                0 <= i < n && ((#[trigger] pairs[i]).pyr_level == 1) == top ==> !replaceable(
                    pairs[i],
                    skip,
                    enable,
                    cur,
                ),
        },
    decreases n,
{
    if n > 0 {
        lemma_oldest_slot(pairs, skip, enable, cur, top, n - 1);
    }
}

/// The slot that is overwritten holds a frame that may go, and the oldest such
/// frame of its level. One is found whenever any frame may go.
pub proof fn law_replaced_slot(
    pairs: [RefFrameMapPair; 8],
    update_arf: bool,
    skip: Seq<i32>,
    enable: bool,
    cur: int,
)
    ensures
        match replaced_slot(pairs, update_arf, skip, enable, cur) {
            Some(k) => {
                &&& 0 <= k < 8
                &&& replaceable(pairs[k], skip, enable, cur)
                &&& forall|i: int|
                    0 <= i < 8 && replaceable(#[trigger] pairs[i], skip, enable, cur) && (
                    pairs[i].pyr_level == 1) == (pairs[k].pyr_level == 1) ==> pairs[k].disp_order
                        <= pairs[i].disp_order
            },
            None => forall|i: int|
                0 <= i < 8 ==> !replaceable(#[trigger] pairs[i], skip, enable, cur),
        },
{
    lemma_oldest_slot(pairs, skip, enable, cur, true, 8);
    lemma_oldest_slot(pairs, skip, enable, cur, false, 8);
    lemma_top_count(pairs, skip, enable, cur, 8);
}

proof fn lemma_top_count(
    pairs: [RefFrameMapPair; 8],
    skip: Seq<i32>,
    enable: bool,
    cur: int,
    n: int,
)
    requires
        0 <= n <= 8,
    ensures
        top_count(pairs, skip, enable, cur, n) > 0 ==> oldest_slot(
            pairs,
            skip,
            enable,
            cur,
            true,
            n,
        ) is Some,
    decreases n,
{
    if n > 0 {
        lemma_top_count(pairs, skip, enable, cur, n - 1);
    }
}

/// Slot `k` holds a frame that the references can be mapped to: it is
/// occupied, and no slot before it holds a frame of the same display order.
pub open spec fn is_listed(pairs: [RefFrameMapPair; 8], k: int) -> bool {
    &&& 0 <= k < 8
    &&& pairs[k].disp_order != -1
    &&& forall|j: int| 0 <= j < k ==> (#[trigger] pairs[j]).disp_order != pairs[k].disp_order
}

/// The buffers of the first `n` slots are the listed ones among them.
proof fn lemma_listed(pairs: [RefFrameMapPair; 8], n: int)
    requires
        0 <= n <= 8,
    ensures
        forall|k: int| 0 <= k < n && #[trigger] is_listed(pairs, k) ==> points_at(
            buffer_list(pairs, n),
            k,
        ),
        forall|i: int|
            0 <= i < buffer_list(pairs, n).len() ==> is_listed(
                pairs,
                (#[trigger] buffer_list(pairs, n)[i]).map_idx as int,
            ),
    decreases n,
{
    if n > 0 {
        lemma_listed(pairs, n - 1);
        law_buffer_list(pairs, n - 1);
        let s = buffer_list(pairs, n - 1);
        let t = buffer_list(pairs, n);
        let p = pairs[n - 1];
        if p.occupied() && !holds_order(s, p.disp_order) {
            let b = RefBuf {
                map_idx: (n - 1) as usize,
                disp_order: p.disp_order,
                pyr_level: p.pyr_level,
            };
            let x = lemma_place(s, b);
            lemma_in_order(s, b, x);
            assert(t == s.insert(x, b));
            assert(t[x] == b);
            assert forall|k: int| 0 <= k < n && #[trigger] is_listed(pairs, k) implies points_at(
                t,
                k,
            ) by {
                if k < n - 1 {
                    assert(points_at(s, k));
                    let i = choose|i: int| 0 <= i < s.len() && (#[trigger] s[i]).map_idx == k;
                    if i < x {
                        assert(t[i] == s[i]);
                    } else {
                        assert(t[i + 1] == s[i]);
                    }
                }
            }
            assert forall|j: int| 0 <= j < n - 1 implies (#[trigger] pairs[j]).disp_order
                != p.disp_order by {
                if pairs[j].disp_order == p.disp_order {
                    assert(pairs[j].occupied());
                }
            }
            assert(is_listed(pairs, n - 1));
            assert forall|i: int| 0 <= i < t.len() implies is_listed(
                pairs,
                (#[trigger] t[i]).map_idx as int,
            ) by {
                if i < x {
                    assert(t[i] == s[i]);
                } else if i > x {
                    assert(t[i] == s[i - 1]);
                }
            }
        } else {
            assert(t == s);
            assert(!is_listed(pairs, n - 1)) by {
                if p.occupied() {
                    let i = choose|i: int|
                        0 <= i < s.len() && (#[trigger] s[i]).disp_order == p.disp_order;
                    assert(pairs[s[i].map_idx as int].disp_order == p.disp_order);
                }
            }
        }
    }
}

/// A slot that is not listed leaves room for every buffer among the seven
/// names.
proof fn lemma_room(pairs: [RefFrameMapPair; 8], e: int, n: int)
    requires
        0 <= e < n <= 8,
        !is_listed(pairs, e),
    ensures
        buffer_list(pairs, n).len() <= n - 1,
    decreases n,
{
    law_buffer_list(pairs, n - 1);
    let s = buffer_list(pairs, n - 1);
    let p = pairs[n - 1];
    if e < n - 1 {
        lemma_room(pairs, e, n - 1);
        if p.occupied() && !holds_order(s, p.disp_order) {
            let b = RefBuf {
                map_idx: (n - 1) as usize,
                disp_order: p.disp_order,
                pyr_level: p.pyr_level,
            };
            let x = lemma_place(s, b);
            lemma_in_order(s, b, x);
        }
    } else if p.occupied() && !holds_order(s, p.disp_order) {
        assert forall|j: int| 0 <= j < e implies (#[trigger] pairs[j]).disp_order
            != p.disp_order by {
            if pairs[j].disp_order == p.disp_order {
                assert(pairs[j].occupied());
            }
        }
        assert(false);
    }
}

/// The place of a listed slot among the buffers.
proof fn lemma_find(pairs: [RefFrameMapPair; 8], k: int) -> (i: int)
    requires
        is_listed(pairs, k),
    ensures
        0 <= i < buffer_list(pairs, 8).len(),
        buffer_list(pairs, 8)[i] == (RefBuf {
            map_idx: k as usize,
            disp_order: pairs[k].disp_order,
            pyr_level: pairs[k].pyr_level,
        }),
{
    let bufs = buffer_list(pairs, 8);
    lemma_listed(pairs, 8);
    law_buffer_list(pairs, 8);
    assert(points_at(bufs, k));
    choose|i: int| 0 <= i < bufs.len() && (#[trigger] bufs[i]).map_idx == k
}

/// What was settled at `st` is still so at `t`.
spec fn is_later(st: RefMapping, t: RefMapping) -> bool {
    &&& t.map.len() == st.map.len()
    &&& t.used.len() == st.used.len()
    &&& forall|k: int| 0 <= k < st.map.len() && st.map[k] != -1 ==> #[trigger] t.map[k] == st.map[k]
}

proof fn lemma_past_keeps(base: RefMapping, st: RefMapping, bufs: Seq<RefBuf>, cur: int, slot: int)
    requires
        is_later(base, st),
        st.used.len() == bufs.len(),
        st.map.len() == 8,
        0 <= slot < 7,
    ensures
        is_later(base, st.fill_past(bufs, cur, slot)),
        st.fill_past(bufs, cur, slot).used.len() == bufs.len(),
        st.fill_past(bufs, cur, slot).map.len() == 8,
{
    lemma_newest_meets(
        |i: int| !st.used[i] && bufs[i].disp_order < cur,
        bufs.len() as int,
    );
}

proof fn lemma_other_keeps(base: RefMapping, st: RefMapping, bufs: Seq<RefBuf>, cur: int, slot: int)
    requires
        is_later(base, st),
        st.used.len() == bufs.len(),
        st.map.len() == 8,
        0 <= slot < 7,
    ensures
        is_later(base, st.fill_other(bufs, cur, slot)),
        st.fill_other(bufs, cur, slot).used.len() == bufs.len(),
        st.fill_other(bufs, cur, slot).map.len() == 8,
{
    lemma_newest_meets(
        |i: int| !st.used[i] && bufs[i].disp_order >= cur,
        bufs.len() as int,
    );
}

proof fn lemma_future_keeps(base: RefMapping, st: RefMapping, bufs: Seq<RefBuf>, cur: int, slot: int)
    requires
        is_later(base, st),
        st.used.len() == bufs.len(),
        st.map.len() == 8,
        0 <= slot < 7,
    ensures
        is_later(base, st.fill_future(bufs, cur, slot)),
        st.fill_future(bufs, cur, slot).used.len() == bufs.len(),
        st.fill_future(bufs, cur, slot).map.len() == 8,
{
    lemma_oldest_meets(
        |i: int| !st.used[i] && bufs[i].disp_order > cur,
        0,
        bufs.len() as int,
    );
}

/// The first three references, the next two, and the rest.
spec fn last_filled(st: RefMapping, bufs: Seq<RefBuf>, cur: int) -> RefMapping {
    st.fill_past(bufs, cur, 0).fill_past(bufs, cur, 1).fill_past(bufs, cur, 2)
}

spec fn next_filled(st: RefMapping, bufs: Seq<RefBuf>, cur: int) -> RefMapping {
    st.fill_future(bufs, cur, 4).fill_future(bufs, cur, 5)
}

spec fn rest_filled(m5: RefMapping, bufs: Seq<RefBuf>, cur: int) -> RefMapping {
    let b = m5.fill_future(bufs, cur, 6);
    let c = b.fill_past(bufs, cur, 0).fill_past(bufs, cur, 1).fill_past(bufs, cur, 2).fill_past(
        bufs,
        cur,
        3,
    ).fill_past(bufs, cur, 4).fill_past(bufs, cur, 5).fill_past(bufs, cur, 6);
    c.fill_other(bufs, cur, 6).fill_other(bufs, cur, 5).fill_other(bufs, cur, 4).fill_other(
        bufs,
        cur,
        3,
    ).fill_other(bufs, cur, 2).fill_other(bufs, cur, 1).fill_other(bufs, cur, 0)
}

proof fn lemma_rest_keeps(m5: RefMapping, bufs: Seq<RefBuf>, cur: int)
    requires
        m5.used.len() == bufs.len(),
        m5.map.len() == 8,
    ensures
        is_later(m5, rest_filled(m5, bufs, cur)),
{
    let m6 = m5.fill_future(bufs, cur, 6);
    lemma_future_keeps(m5, m5, bufs, cur, 6);
    let m7 = m6.fill_past(bufs, cur, 0);
    lemma_past_keeps(m5, m6, bufs, cur, 0);
    let m8 = m7.fill_past(bufs, cur, 1);
    lemma_past_keeps(m5, m7, bufs, cur, 1);
    let m9 = m8.fill_past(bufs, cur, 2);
    lemma_past_keeps(m5, m8, bufs, cur, 2);
    let m10 = m9.fill_past(bufs, cur, 3);
    lemma_past_keeps(m5, m9, bufs, cur, 3);
    let m11 = m10.fill_past(bufs, cur, 4);
    lemma_past_keeps(m5, m10, bufs, cur, 4);
    let m12 = m11.fill_past(bufs, cur, 5);
    lemma_past_keeps(m5, m11, bufs, cur, 5);
    let m13 = m12.fill_past(bufs, cur, 6);
    lemma_past_keeps(m5, m12, bufs, cur, 6);
    let m14 = m13.fill_other(bufs, cur, 6);
    lemma_other_keeps(m5, m13, bufs, cur, 6);
    let m15 = m14.fill_other(bufs, cur, 5);
    lemma_other_keeps(m5, m14, bufs, cur, 5);
    let m16 = m15.fill_other(bufs, cur, 4);
    lemma_other_keeps(m5, m15, bufs, cur, 4);
    let m17 = m16.fill_other(bufs, cur, 3);
    lemma_other_keeps(m5, m16, bufs, cur, 3);
    let m18 = m17.fill_other(bufs, cur, 2);
    lemma_other_keeps(m5, m17, bufs, cur, 2);
    let m19 = m18.fill_other(bufs, cur, 1);
    lemma_other_keeps(m5, m18, bufs, cur, 1);
    lemma_other_keeps(m5, m19, bufs, cur, 0);
}

/// What is named early stays.
proof fn lemma_fill_named_keeps(st: RefMapping, bufs: Seq<RefBuf>, cur: int)
    requires
        st.used.len() == bufs.len(),
        st.map.len() == 8,
    ensures
        ({
            let m3 = last_filled(st, bufs, cur);
            let m5 = next_filled(m3, bufs, cur);
            &&& is_later(st, fill_named(st, bufs, cur))
            &&& is_later(m3, fill_named(st, bufs, cur))
            &&& is_later(m5, fill_named(st, bufs, cur))
            &&& m3.used.len() == bufs.len()
            &&& m3.map.len() == 8
        }),
{
    let m1 = st.fill_past(bufs, cur, 0);
    lemma_past_keeps(st, st, bufs, cur, 0);
    let m2 = m1.fill_past(bufs, cur, 1);
    lemma_past_keeps(st, m1, bufs, cur, 1);
    let m3 = m2.fill_past(bufs, cur, 2);
    lemma_past_keeps(st, m2, bufs, cur, 2);
    let m4 = m3.fill_future(bufs, cur, 4);
    lemma_future_keeps(m3, m3, bufs, cur, 4);
    let m5 = m4.fill_future(bufs, cur, 5);
    lemma_future_keeps(m3, m4, bufs, cur, 5);
    lemma_rest_keeps(m5, bufs, cur);
    let t = rest_filled(m5, bufs, cur);
    assert(t == fill_named(st, bufs, cur));
    assert(is_later(m3, t)) by {
        assert forall|k: int| 0 <= k < m3.map.len() && m3.map[k] != -1 implies #[trigger] t.map[k]
            == m3.map[k] by {
            assert(m5.map[k] == m3.map[k]);
        }
    }
    assert forall|k: int| 0 <= k < st.map.len() && st.map[k] != -1 implies #[trigger] t.map[k]
        == st.map[k] by {
        assert(m3.map[k] == st.map[k]);
    }
}

/// The mapping before the references are filled.
spec fn prepared(bufs: Seq<RefBuf>, cur: int, skip: Option<ParallelSkip>) -> RefMapping {
    leave_one_out(map_levels(mapping_start(bufs, cur, skip), bufs, cur), bufs, cur, skip)
}

proof fn lemma_prepared(pairs: [RefFrameMapPair; 8], cur: int, skip: Option<ParallelSkip>)
    ensures
        ({
            let bufs = buffer_list(pairs, 8);
            let st = prepared(bufs, cur, skip);
            &&& st.used.len() == bufs.len()
            &&& st.map.len() == 8
            &&& st.map == map_levels(mapping_start(bufs, cur, skip), bufs, cur).map
        }),
{
    let bufs = buffer_list(pairs, 8);
    let n = bufs.len() as int;
    let low = lowest_level(bufs, n);
    lemma_start_is_fair(pairs, cur, skip);
    let s1 = map_levels(mapping_start(bufs, cur, skip), bufs, cur);
    lemma_left_out(s1, bufs, cur, low, level_count(bufs, low, n), n);
}

proof fn lemma_newest_last(f: spec_fn(int) -> bool, n: int, j: int)
    requires
        0 <= j < n,
        f(j),
    ensures
        newest(f, n) matches Some(i) && j <= i < n && f(i),
    decreases n,
{
    if !f(n - 1) {
        lemma_newest_last(f, n - 1, j);
    }
}

proof fn lemma_oldest_first(f: spec_fn(int) -> bool, i: int, n: int, j: int)
    requires
        0 <= i <= j < n,
        f(j),
    ensures
        oldest(f, i, n) matches Some(k) && i <= k <= j && f(k),
    decreases n - i,
{
    if !f(i) {
        lemma_oldest_first(f, i + 1, n, j);
    }
}

proof fn lemma_lowest(s: Seq<RefBuf>, n: int)
    requires
        0 <= n <= s.len(),
    ensures
        lowest_level(s, n) <= MAX_ARF_LAYERS,
        forall|i: int| 0 <= i < n ==> lowest_level(s, n) <= (#[trigger] s[i]).pyr_level,
        lowest_level(s, n) == MAX_ARF_LAYERS || exists|i: int|
            0 <= i < n && (#[trigger] s[i]).pyr_level == lowest_level(s, n),
    decreases n,
{
    if n > 0 {
        lemma_lowest(s, n - 1);
        let before = lowest_level(s, n - 1);
        if lowest_level(s, n) == before && before != MAX_ARF_LAYERS {
            let i = choose|i: int| 0 <= i < n - 1 && (#[trigger] s[i]).pyr_level == before;
            assert(s[i].pyr_level == before);
        } else if lowest_level(s, n) != before {
            assert(s[n - 1].pyr_level == lowest_level(s, n));
        }
    }
}

proof fn lemma_levels_differ(s: Seq<RefBuf>, level: int, n: int, j: int)
    requires
        0 <= j < n <= s.len(),
        s[j].pyr_level != level,
    ensures
        level_count(s, level, n) < n,
    decreases n,
{
    if j < n - 1 {
        lemma_levels_differ(s, level, n - 1, j);
    } else {
        lemma_level_count(s, level, n - 1);
    }
}

proof fn lemma_level_count(s: Seq<RefBuf>, level: int, n: int)
    requires
        0 <= n <= s.len(),
    ensures
        level_count(s, level, n) <= n,
    decreases n,
{
    if n > 0 {
        lemma_level_count(s, level, n - 1);
    }
}

/// Where frames of several levels are held, GOLDEN is the newest past frame of
/// the lowest level, and ALTREF the newest future one.
pub proof fn law_golden_and_altref_are_lowest(
    pairs: [RefFrameMapPair; 8],
    cur: int,
    skip: Option<ParallelSkip>,
    k: int,
)
    requires
        is_listed(pairs, k),
        pairs[k].pyr_level <= 6,
        forall|j: int| #[trigger] is_listed(pairs, j) ==> pairs[k].pyr_level <= pairs[j].pyr_level,
        exists|j: int| #[trigger] is_listed(pairs, j) && pairs[j].pyr_level > pairs[k].pyr_level,
    ensures
        ({
            let m = named_mapping(pairs, cur, skip).map;
            &&& pairs[k].disp_order < cur && (forall|j: int| #[trigger]
                is_listed(pairs, j) && pairs[j].pyr_level == pairs[k].pyr_level
                    && pairs[j].disp_order < cur ==> pairs[j].disp_order <= pairs[k].disp_order)
                ==> m[GOLDEN_SLOT as int] == k
            &&& pairs[k].disp_order > cur && (forall|j: int| #[trigger]
                is_listed(pairs, j) && pairs[j].pyr_level == pairs[k].pyr_level
                    && pairs[j].disp_order > cur ==> pairs[j].disp_order <= pairs[k].disp_order)
                ==> m[ALTREF_SLOT as int] == k
        }),
{
    let bufs = buffer_list(pairs, 8);
    let n = bufs.len() as int;
    let low = lowest_level(bufs, n);
    law_buffer_list(pairs, 8);
    lemma_listed(pairs, 8);
    let i = lemma_find(pairs, k);
    lemma_lowest(bufs, n);
    assert(low == pairs[k].pyr_level) by {
        if low != pairs[k].pyr_level {
            let a = choose|a: int| 0 <= a < n && (#[trigger] bufs[a]).pyr_level == low;
            assert(is_listed(pairs, bufs[a].map_idx as int));
        }
    }
    let o = choose|j: int| #[trigger] is_listed(pairs, j) && pairs[j].pyr_level > pairs[k].pyr_level;
    let oi = lemma_find(pairs, o);
    lemma_levels_differ(bufs, low, n, oi);
    lemma_prepared(pairs, cur, skip);
    lemma_fill_named_keeps(prepared(bufs, cur, skip), bufs, cur);
    let s1 = map_levels(mapping_start(bufs, cur, skip), bufs, cur);
    let m = named_mapping(pairs, cur, skip).map;
    let g = |i: int| bufs[i].pyr_level == low && bufs[i].disp_order < cur;
    let h = |i: int| bufs[i].pyr_level == low && bufs[i].disp_order > cur;
    lemma_newest_meets(g, n);
    lemma_newest_meets(h, n);
    if pairs[k].disp_order < cur && (forall|j: int| #[trigger]
        is_listed(pairs, j) && pairs[j].pyr_level == pairs[k].pyr_level && pairs[j].disp_order < cur
            ==> pairs[j].disp_order <= pairs[k].disp_order) {
        assert(g(i));
        lemma_newest_last(g, n, i);
        let x = newest(g, n)->Some_0;
        assert(is_listed(pairs, bufs[x].map_idx as int));
        assert(x == i);
        assert(s1.map[GOLDEN_SLOT as int] == k);
    }
    if pairs[k].disp_order > cur && (forall|j: int| #[trigger]
        is_listed(pairs, j) && pairs[j].pyr_level == pairs[k].pyr_level && pairs[j].disp_order > cur
            ==> pairs[j].disp_order <= pairs[k].disp_order) {
        assert(h(i));
        lemma_newest_last(h, n, i);
        let x = newest(h, n)->Some_0;
        assert(is_listed(pairs, bufs[x].map_idx as int));
        assert(x == i);
        assert(s1.map[ALTREF_SLOT as int] == k);
    }
}

proof fn lemma_shown(bufs: Seq<RefBuf>, cur: int, skip: Option<ParallelSkip>, i: int)
    requires
        0 <= i < bufs.len(),
        ordered(bufs),
        bufs[i].pyr_level != lowest_level(bufs, bufs.len() as int),
        bufs[i].disp_order == cur,
    ensures
        map_levels(mapping_start(bufs, cur, skip), bufs, cur).map[BWDREF_SLOT as int]
            == bufs[i].map_idx,
{
    let n = bufs.len() as int;
    let low = lowest_level(bufs, n);
    let f = |i: int| bufs[i].pyr_level != low && bufs[i].disp_order == cur;
    assert(f(i));
    lemma_newest_last(f, n, i);
    let x = newest(f, n)->Some_0;
    if i < x {
        assert(bufs[i].disp_order < bufs[x].disp_order);
    }
}

/// A frame of the current display order that is held already, above the lowest
/// level, is the backward reference.
pub proof fn law_shown_frame_is_backward(
    pairs: [RefFrameMapPair; 8],
    cur: int,
    skip: Option<ParallelSkip>,
    k: int,
)
    requires
        is_listed(pairs, k),
        pairs[k].disp_order == cur,
        exists|j: int| #[trigger] is_listed(pairs, j) && pairs[j].pyr_level < pairs[k].pyr_level,
    ensures
        named_mapping(pairs, cur, skip).map[BWDREF_SLOT as int] == k,
{
    let bufs = buffer_list(pairs, 8);
    let n = bufs.len() as int;
    let low = lowest_level(bufs, n);
    law_buffer_list(pairs, 8);
    let i = lemma_find(pairs, k);
    lemma_lowest(bufs, n);
    let o = choose|j: int| #[trigger] is_listed(pairs, j) && pairs[j].pyr_level < pairs[k].pyr_level;
    let oi = lemma_find(pairs, o);
    assert(bufs[oi].pyr_level >= low);
    lemma_shown(bufs, cur, skip, i);
    lemma_prepared(pairs, cur, skip);
    lemma_fill_named_keeps(prepared(bufs, cur, skip), bufs, cur);
}

/// Before the references are filled, a buffer is taken only by name.
proof fn lemma_free_at_start(pairs: [RefFrameMapPair; 8], cur: int, i: int)
    requires
        0 <= i < buffer_list(pairs, 8).len() <= 7,
        buffer_list(pairs, 8)[i].disp_order != cur,
    ensures
        ({
            let bufs = buffer_list(pairs, 8);
            let st = prepared(bufs, cur, None);
            &&& st.used.len() == bufs.len()
            &&& st.map.len() == 8
            &&& st.map[0] == -1 && st.map[1] == -1 && st.map[2] == -1 && st.map[5] == -1
            &&& st.map[4] != -1 ==> exists|j: int|
                0 <= j < bufs.len() && (#[trigger] bufs[j]).disp_order == cur
            &&& st.used[i] ==> {
                ||| bufs[i].disp_order < cur && st.map[3] == bufs[i].map_idx
                ||| bufs[i].disp_order > cur && st.map[6] == bufs[i].map_idx
            }
        }),
{
    let bufs = buffer_list(pairs, 8);
    let n = bufs.len() as int;
    let low = lowest_level(bufs, n);
    let s0 = mapping_start(bufs, cur, None);
    let s1 = map_levels(s0, bufs, cur);
    let f = |i: int| bufs[i].pyr_level != low && bufs[i].disp_order == cur;
    let g = |i: int| bufs[i].pyr_level == low && bufs[i].disp_order < cur;
    let h = |i: int| bufs[i].pyr_level == low && bufs[i].disp_order > cur;
    lemma_newest_meets(f, n);
    lemma_newest_meets(g, n);
    lemma_newest_meets(h, n);
    assert(!s0.used[i]);
    if s0.map[4] != -1 {
        let j = newest(f, n)->Some_0;
        assert(bufs[j].disp_order == cur);
    }
}

/// LAST, LAST2 and LAST3 are the newest past frames but for GOLDEN, newest
/// first: no past frame that is neither GOLDEN nor one of those before it is
/// newer than the one that is named. A slot that holds no frame of its own
/// leaves room for all of them.
pub proof fn law_last_frames_are_newest(
    pairs: [RefFrameMapPair; 8],
    cur: int,
    e: int,
    t: int,
    k: int,
)
    requires
        0 <= e < 8,
        !is_listed(pairs, e),
        0 <= t < 3,
        is_listed(pairs, k),
        pairs[k].disp_order < cur,
        named_mapping(pairs, cur, None).map[GOLDEN_SLOT as int] != k,
        forall|u: int| 0 <= u < t ==> #[trigger] named_mapping(pairs, cur, None).map[u] != k,
    ensures
        ({
            let m = named_mapping(pairs, cur, None).map[t];
            &&& is_listed(pairs, m)
            &&& pairs[k].disp_order <= pairs[m].disp_order < cur
        }),
{
    let bufs = buffer_list(pairs, 8);
    let n = bufs.len() as int;
    law_buffer_list(pairs, 8);
    lemma_listed(pairs, 8);
    lemma_room(pairs, e, 8);
    let i = lemma_find(pairs, k);
    lemma_free_at_start(pairs, cur, i);
    let st = prepared(bufs, cur, None);
    lemma_fill_named_keeps(st, bufs, cur);
    let done = named_mapping(pairs, cur, None);
    assert(!st.used[i]);
    let f0 = |i: int| !st.used[i] && bufs[i].disp_order < cur;
    assert(f0(i));
    lemma_newest_last(f0, n, i);
    let p0 = newest(f0, n)->Some_0;
    let m1 = st.fill_past(bufs, cur, 0);
    assert(m1.map[0] == bufs[p0].map_idx);
    let m2 = m1.fill_past(bufs, cur, 1);
    let m3 = m2.fill_past(bufs, cur, 2);
    assert(m3.map[0] == m1.map[0]);
    assert(done.map[0] == bufs[p0].map_idx);
    assert(i < p0 ==> bufs[i].disp_order < bufs[p0].disp_order);
    if t >= 1 {
        assert(done.map[0] != k);
        assert(p0 != i);
        let f1 = |i: int| !m1.used[i] && bufs[i].disp_order < cur;
        assert(f1(i));
        lemma_newest_last(f1, n, i);
        let p1 = newest(f1, n)->Some_0;
        assert(m2.map[1] == bufs[p1].map_idx);
        assert(m3.map[1] == m2.map[1]);
        assert(done.map[1] == bufs[p1].map_idx);
        assert(i < p1 ==> bufs[i].disp_order < bufs[p1].disp_order);
        if t >= 2 {
            assert(done.map[1] != k);
            assert(p1 != i);
            let f2 = |i: int| !m2.used[i] && bufs[i].disp_order < cur;
            assert(f2(i));
            lemma_newest_last(f2, n, i);
            let p2 = newest(f2, n)->Some_0;
            assert(m3.map[2] == bufs[p2].map_idx);
            assert(done.map[2] == bufs[p2].map_idx);
            assert(i < p2 ==> bufs[i].disp_order < bufs[p2].disp_order);
        }
    }
}

/// BWDREF and ALTREF2 are the oldest future frames but for ALTREF, oldest
/// first, unless the frame of the current display order is held already and
/// takes the place of BWDREF.
pub proof fn law_backward_frames_are_oldest(
    pairs: [RefFrameMapPair; 8],
    cur: int,
    e: int,
    t: int,
    k: int,
)
    requires
        0 <= e < 8,
        !is_listed(pairs, e),
        t == BWDREF_SLOT || t == ALTREF2_SLOT,
        is_listed(pairs, k),
        pairs[k].disp_order > cur,
        named_mapping(pairs, cur, None).map[ALTREF_SLOT as int] != k,
        t == ALTREF2_SLOT ==> named_mapping(pairs, cur, None).map[BWDREF_SLOT as int] != k,
        t == BWDREF_SLOT ==> forall|j: int| #[trigger] is_listed(pairs, j) ==> pairs[j].disp_order
            != cur,
    ensures
        ({
            let m = named_mapping(pairs, cur, None).map[t];
            &&& is_listed(pairs, m)
            &&& cur < pairs[m].disp_order <= pairs[k].disp_order
        }),
{
    let bufs = buffer_list(pairs, 8);
    let n = bufs.len() as int;
    law_buffer_list(pairs, 8);
    lemma_listed(pairs, 8);
    lemma_room(pairs, e, 8);
    let i = lemma_find(pairs, k);
    lemma_free_at_start(pairs, cur, i);
    let st = prepared(bufs, cur, None);
    lemma_fill_named_keeps(st, bufs, cur);
    let done = named_mapping(pairs, cur, None);
    assert(!st.used[i]);
    let m1 = st.fill_past(bufs, cur, 0);
    let m2 = m1.fill_past(bufs, cur, 1);
    let m3 = m2.fill_past(bufs, cur, 2);
    lemma_past_fill_spares(st, bufs, cur, 0, i);
    lemma_past_fill_spares(m1, bufs, cur, 1, i);
    lemma_past_fill_spares(m2, bufs, cur, 2, i);
    let m4 = m3.fill_future(bufs, cur, 4);
    let m5 = m4.fill_future(bufs, cur, 5);
    let f4 = |i: int| !m3.used[i] && bufs[i].disp_order > cur;
    assert(f4(i));
    lemma_oldest_first(f4, 0, n, i);
    let p4 = oldest(f4, 0, n)->Some_0;
    assert(p4 < i ==> bufs[p4].disp_order < bufs[i].disp_order);
    if t == BWDREF_SLOT {
        assert(st.map[4] == -1) by {
            if st.map[4] != -1 {
                let j = choose|j: int| 0 <= j < n && (#[trigger] bufs[j]).disp_order == cur;
                assert(is_listed(pairs, bufs[j].map_idx as int));
            }
        }
        assert(m4.map[4] == bufs[p4].map_idx);
        assert(m5.map[4] == m4.map[4]);
        assert(done.map[4] == bufs[p4].map_idx);
        assert(is_listed(pairs, bufs[p4].map_idx as int));
    } else {
        assert(!m4.used[i]) by {
            if m3.map[4] == -1 {
                assert(m4.map[4] == bufs[p4].map_idx);
                assert(m5.map[4] == m4.map[4]);
                assert(done.map[4] == bufs[p4].map_idx);
            }
        }
        let f5 = |i: int| !m4.used[i] && bufs[i].disp_order > cur;
        assert(f5(i));
        lemma_oldest_first(f5, 0, n, i);
        let p5 = oldest(f5, 0, n)->Some_0;
        assert(m4.map[5] == -1);
        assert(m5.map[5] == bufs[p5].map_idx);
        assert(done.map[5] == bufs[p5].map_idx);
        assert(is_listed(pairs, bufs[p5].map_idx as int));
        assert(p5 < i ==> bufs[p5].disp_order < bufs[i].disp_order);
    }
}

/// A past buffer that is named leaves a future one free.
proof fn lemma_past_fill_spares(st: RefMapping, bufs: Seq<RefBuf>, cur: int, slot: int, i: int)
    requires
        st.used.len() == bufs.len(),
        st.map.len() == 8,
        0 <= slot < 3,
        0 <= i < bufs.len(),
        bufs[i].disp_order > cur,
        !st.used[i],
    ensures
        ({
            let t = st.fill_past(bufs, cur, slot);
            &&& t.used.len() == bufs.len()
            &&& t.map.len() == 8
            &&& !t.used[i]
            &&& forall|k: int| 3 <= k < 8 ==> #[trigger] t.map[k] == st.map[k]
        }),
{
    let n = bufs.len() as int;
    let f = |i: int| !st.used[i] && bufs[i].disp_order < cur;
    lemma_newest_meets(f, n);
}

/// The frame in slot `i` may be overwritten: it was shown at least three frames
/// ago, and it is not on the list of frames to keep, which ends at its first
/// -1.
pub open spec fn may_go(
    pairs: [RefFrameMapPair; 8],
    keep: Seq<i32>,
    enable: bool,
    cur: int,
    i: int,
) -> bool {
    &&& 0 <= i < 8
    &&& pairs[i].disp_order != -1
    &&& pairs[i].disp_order + 3 <= cur
    &&& enable ==> forall|j: int|
        #![trigger keep[j]]
        0 <= j < 8 && (forall|k: int| 0 <= k <= j ==> #[trigger] keep[k] != -1) ==> keep[j]
            != pairs[i].disp_order
}

proof fn lemma_protected(keep: Seq<i32>, order: i32, n: int)
    requires
        keep.len() == 8,
        0 <= n <= 8,
        forall|k: int| 0 <= k < n ==> #[trigger] keep[k] != -1,
        forall|k: int| 0 <= k < n ==> #[trigger] keep[k] != order,
    ensures
        is_protected(keep, order, n) == exists|j: int|
            #![trigger keep[j]]
            0 <= j < 8 && (forall|k: int| 0 <= k <= j ==> #[trigger] keep[k] != -1) && keep[j]
                == order,
    decreases 8 - n,
{
    if n < 8 && keep[n] != -1 {
        if keep[n] == order {
            assert(forall|k: int| 0 <= k <= n ==> #[trigger] keep[k] != -1);
        } else {
            lemma_protected(keep, order, n + 1);
        }
    } else if n < 8 {
        assert forall|j: int|
            #![trigger keep[j]]
            0 <= j < 8 && (forall|k: int| 0 <= k <= j ==> #[trigger] keep[k] != -1) implies keep[j]
            != order by {
            if j >= n {
                assert(keep[n] != -1);
            }
        }
    }
}

proof fn lemma_may_go(
    pairs: [RefFrameMapPair; 8],
    keep: Seq<i32>,
    enable: bool,
    cur: int,
    i: int,
)
    requires
        keep.len() == 8,
        0 <= i < 8,
    ensures
        may_go(pairs, keep, enable, cur, i) == replaceable(pairs[i], keep, enable, cur),
{
    lemma_protected(keep, pairs[i].disp_order, 0);
}

proof fn lemma_three_top(
    pairs: [RefFrameMapPair; 8],
    keep: Seq<i32>,
    enable: bool,
    cur: int,
    a: int,
    b: int,
    c: int,
    n: int,
)
    requires
        0 <= a < b < c,
        c < 8,
        0 <= n <= 8,
        replaceable(pairs[a], keep, enable, cur) && pairs[a].pyr_level == 1,
        replaceable(pairs[b], keep, enable, cur) && pairs[b].pyr_level == 1,
        replaceable(pairs[c], keep, enable, cur) && pairs[c].pyr_level == 1,
    ensures
        top_count(pairs, keep, enable, cur, n) >= (if a < n {
            1int
        } else {
            0
        }) + (if b < n {
            1int
        } else {
            0
        }) + (if c < n {
            1int
        } else {
            0
        }),
    decreases n,
{
    if n > 0 {
        lemma_three_top(pairs, keep, enable, cur, a, b, c, n - 1);
    }
}

/// The slot that is overwritten when none is free holds the oldest frame that
/// may go. Frames of the top level are spared while another may go, unless the
/// new frame is itself of that level and three or more of it may go: then it is
/// the oldest of those.
pub proof fn law_oldest_frame_goes(
    pairs: [RefFrameMapPair; 8],
    update_arf: bool,
    keep: Seq<i32>,
    enable: bool,
    cur: int,
    i: int,
    a: int,
    b: int,
    c: int,
)
    requires
        keep.len() == 8,
        may_go(pairs, keep, enable, cur, i),
    ensures
        ({
            let r = replaced_slot(pairs, update_arf, keep, enable, cur);
            &&& r is Some
            &&& may_go(pairs, keep, enable, cur, r->Some_0)
            &&& (pairs[i].pyr_level == 1) == (pairs[r->Some_0].pyr_level == 1)
                ==> pairs[r->Some_0].disp_order <= pairs[i].disp_order
            &&& !update_arf && pairs[i].pyr_level != 1 ==> pairs[r->Some_0].pyr_level != 1
            &&& update_arf && 0 <= a < b < c && may_go(pairs, keep, enable, cur, a) && may_go(
                pairs,
                keep,
                enable,
                cur,
                b,
            ) && may_go(pairs, keep, enable, cur, c) && pairs[a].pyr_level == 1
                && pairs[b].pyr_level == 1 && pairs[c].pyr_level == 1
                ==> pairs[r->Some_0].pyr_level == 1
        }),
{
    let r = replaced_slot(pairs, update_arf, keep, enable, cur);
    law_replaced_slot(pairs, update_arf, keep, enable, cur);
    lemma_may_go(pairs, keep, enable, cur, i);
    assert(replaceable(pairs[i], keep, enable, cur));
    lemma_may_go(pairs, keep, enable, cur, r->Some_0);
    lemma_oldest_slot(pairs, keep, enable, cur, true, 8);
    lemma_oldest_slot(pairs, keep, enable, cur, false, 8);
    lemma_top_count(pairs, keep, enable, cur, 8);
    if update_arf && 0 <= a < b < c && may_go(pairs, keep, enable, cur, a) && may_go(
        pairs,
        keep,
        enable,
        cur,
        b,
    ) && may_go(pairs, keep, enable, cur, c) && pairs[a].pyr_level == 1 && pairs[b].pyr_level == 1
        && pairs[c].pyr_level == 1 {
        lemma_may_go(pairs, keep, enable, cur, a);
        lemma_may_go(pairs, keep, enable, cur, b);
        lemma_may_go(pairs, keep, enable, cur, c);
        lemma_three_top(pairs, keep, enable, cur, a, b, c, 8);
    }
}

/// No frame is overwritten that has to stay: where none may go, there is no
/// slot to overwrite.
pub proof fn law_no_kept_frame_goes(
    pairs: [RefFrameMapPair; 8],
    update_arf: bool,
    keep: Seq<i32>,
    enable: bool,
    cur: int,
)
    requires
        keep.len() == 8,
        forall|i: int| 0 <= i < 8 ==> !#[trigger] may_go(pairs, keep, enable, cur, i),
    ensures
        replaced_slot(pairs, update_arf, keep, enable, cur) is None,
{
    law_replaced_slot(pairs, update_arf, keep, enable, cur);
    if let Some(k) = replaced_slot(pairs, update_arf, keep, enable, cur) {
        lemma_may_go(pairs, keep, enable, cur, k);
        assert(!may_go(pairs, keep, enable, cur, k));
    }
}

proof fn lemma_first_empty(pairs: [RefFrameMapPair; 8], n: int, k: int)
    requires
        0 <= n <= k < 8,
        pairs[k].disp_order == -1,
    ensures
        first_empty(pairs, n) matches Some(j) && n <= j <= k && pairs[j].disp_order == -1,
    decreases 8 - n,
{
    if pairs[n].disp_order != -1 {
        lemma_first_empty(pairs, n + 1, k);
    }
}

/// A frame that is kept is written to an empty slot while there is one: no
/// frame is overwritten then. The frame refreshes that slot alone.
pub proof fn law_empty_slot_is_filled_first(
    pairs: [RefFrameMapPair; 8],
    state: RefbufState,
    frame_type: FrameType,
    ty: FrameUpdateType,
    keep: Seq<i32>,
    enable: bool,
    cur: int,
    k: int,
)
    requires
        state != RefbufState::Reset,
        frame_type != FrameType::Switch,
        ty != FrameUpdateType::Overlay,
        ty != FrameUpdateType::IntnlOverlay,
        0 <= k < 8,
        pairs[k].disp_order == -1,
    ensures
        exists|j: int|
            0 <= j <= k && (#[trigger] pairs[j]).disp_order == -1 && refresh_mask(
                pairs,
                state,
                frame_type,
                false,
                ty,
                keep,
                enable,
                cur,
                None,
            ) == Some(1u32 << (j as u32)),
{
    lemma_first_empty(pairs, 0, k);
    let j = first_empty(pairs, 0)->Some_0;
    assert(pairs[j].disp_order == -1);
}

/// Each flag of an outside request refreshes the slot that its reference points
/// at. On an overlay the golden flag stands for the alternate reference, whose
/// own flag is not looked at.
pub proof fn law_request_refreshes_what_it_names(
    pairs: [RefFrameMapPair; 8],
    state: RefbufState,
    frame_type: FrameType,
    ty: FrameUpdateType,
    keep: Seq<i32>,
    enable: bool,
    cur: int,
    flags: ExtRefreshFrameFlags,
    map: Seq<i32>,
)
    requires
        state != RefbufState::Reset,
        frame_type != FrameType::Switch,
        map.len() == 8,
        forall|i: int| 0 <= i < 8 ==> 0 <= #[trigger] map[i] < 8,
        flags.last_frame || flags.golden_frame || flags.bwd_ref_frame || flags.alt2_ref_frame
            || flags.alt_ref_frame,
    ensures
        ({
            let m = refresh_mask(
                pairs,
                state,
                frame_type,
                false,
                ty,
                keep,
                enable,
                cur,
                Some((flags, map)),
            );
            let bit = |i: int| 1u32 << (map[i] as u32);
            let on = |f: bool, i: int|
                if f {
                    bit(i)
                } else {
                    0u32
                };
            m == Some(
                on(flags.last_frame, 0) | on(flags.bwd_ref_frame, 7) | on(flags.alt2_ref_frame, 5)
                    | if ty == FrameUpdateType::Overlay {
                    on(flags.golden_frame, 6)
                } else {
                    on(flags.golden_frame, 3) | on(flags.alt_ref_frame, 6)
                },
            )
        }),
{
    let base = named_bit(map, LAST_SLOT, flags.last_frame) | named_bit(
        map,
        EXTREF_SLOT,
        flags.bwd_ref_frame,
    ) | named_bit(map, ALTREF2_SLOT, flags.alt2_ref_frame);
    let g = named_bit(map, GOLDEN_SLOT, flags.golden_frame);
    let a = named_bit(map, ALTREF_SLOT, flags.alt_ref_frame);
    assert((base | g) | a == base | (g | a)) by (bit_vector);
}

/// Buffer `x` is taken, and no reference points at it.
spec fn avoids(st: RefMapping, bufs: Seq<RefBuf>, x: int) -> bool {
    &&& st.used.len() == bufs.len()
    &&& st.map.len() == 8
    &&& 0 <= x < bufs.len()
    &&& st.used[x]
    &&& forall|k: int| 0 <= k < 8 ==> #[trigger] st.map[k] != bufs[x].map_idx
}

/// The buffers lie in slots of their own.
spec fn own_slots(bufs: Seq<RefBuf>) -> bool {
    forall|a: int, b: int|
        0 <= a < b < bufs.len() ==> (#[trigger] bufs[a]).map_idx != (#[trigger] bufs[b]).map_idx
}

proof fn lemma_past_avoids(st: RefMapping, bufs: Seq<RefBuf>, cur: int, slot: int, x: int)
    requires
        avoids(st, bufs, x),
        own_slots(bufs),
        0 <= slot < 7,
    ensures
        avoids(st.fill_past(bufs, cur, slot), bufs, x),
{
    lemma_newest_meets(
        |i: int| !st.used[i] && bufs[i].disp_order < cur,
        bufs.len() as int,
    );
}

proof fn lemma_future_avoids(st: RefMapping, bufs: Seq<RefBuf>, cur: int, slot: int, x: int)
    requires
        avoids(st, bufs, x),
        own_slots(bufs),
        0 <= slot < 7,
    ensures
        avoids(st.fill_future(bufs, cur, slot), bufs, x),
{
    lemma_oldest_meets(
        |i: int| !st.used[i] && bufs[i].disp_order > cur,
        0,
        bufs.len() as int,
    );
}

proof fn lemma_other_avoids(st: RefMapping, bufs: Seq<RefBuf>, cur: int, slot: int, x: int)
    requires
        avoids(st, bufs, x),
        own_slots(bufs),
        0 <= slot < 7,
    ensures
        avoids(st.fill_other(bufs, cur, slot), bufs, x),
{
    lemma_newest_meets(
        |i: int| !st.used[i] && bufs[i].disp_order >= cur,
        bufs.len() as int,
    );
}

proof fn lemma_named_avoids(st: RefMapping, bufs: Seq<RefBuf>, cur: int, x: int)
    requires
        avoids(st, bufs, x),
        own_slots(bufs),
    ensures
        avoids(fill_named(st, bufs, cur), bufs, x),
{
    let m1 = st.fill_past(bufs, cur, 0);
    lemma_past_avoids(st, bufs, cur, 0, x);
    let m2 = m1.fill_past(bufs, cur, 1);
    lemma_past_avoids(m1, bufs, cur, 1, x);
    let m3 = m2.fill_past(bufs, cur, 2);
    lemma_past_avoids(m2, bufs, cur, 2, x);
    let m4 = m3.fill_future(bufs, cur, 4);
    lemma_future_avoids(m3, bufs, cur, 4, x);
    let m5 = m4.fill_future(bufs, cur, 5);
    lemma_future_avoids(m4, bufs, cur, 5, x);
    let m6 = m5.fill_future(bufs, cur, 6);
    lemma_future_avoids(m5, bufs, cur, 6, x);
    let m7 = m6.fill_past(bufs, cur, 0);
    lemma_past_avoids(m6, bufs, cur, 0, x);
    let m8 = m7.fill_past(bufs, cur, 1);
    lemma_past_avoids(m7, bufs, cur, 1, x);
    let m9 = m8.fill_past(bufs, cur, 2);
    lemma_past_avoids(m8, bufs, cur, 2, x);
    let m10 = m9.fill_past(bufs, cur, 3);
    lemma_past_avoids(m9, bufs, cur, 3, x);
    let m11 = m10.fill_past(bufs, cur, 4);
    lemma_past_avoids(m10, bufs, cur, 4, x);
    let m12 = m11.fill_past(bufs, cur, 5);
    lemma_past_avoids(m11, bufs, cur, 5, x);
    let m13 = m12.fill_past(bufs, cur, 6);
    lemma_past_avoids(m12, bufs, cur, 6, x);
    let m14 = m13.fill_other(bufs, cur, 6);
    lemma_other_avoids(m13, bufs, cur, 6, x);
    let m15 = m14.fill_other(bufs, cur, 5);
    lemma_other_avoids(m14, bufs, cur, 5, x);
    let m16 = m15.fill_other(bufs, cur, 4);
    lemma_other_avoids(m15, bufs, cur, 4, x);
    let m17 = m16.fill_other(bufs, cur, 3);
    lemma_other_avoids(m16, bufs, cur, 3, x);
    let m18 = m17.fill_other(bufs, cur, 2);
    lemma_other_avoids(m17, bufs, cur, 2, x);
    let m19 = m18.fill_other(bufs, cur, 1);
    lemma_other_avoids(m18, bufs, cur, 1, x);
    lemma_other_avoids(m19, bufs, cur, 0, x);
}

proof fn lemma_left_out_is_far(
    st: RefMapping,
    bufs: Seq<RefBuf>,
    cur: int,
    low: int,
    count: int,
    k: int,
    i: int,
)
    requires
        0 <= i < k,
        !st.used[i],
        bufs[i].pyr_level != low,
        bufs[i].disp_order != cur,
    ensures
        left_out(st, bufs, cur, low, count, k) matches Some(j) && 0 <= j < k && abs_int(
            cur - bufs[i].disp_order,
        ) <= abs_int(cur - bufs[j].disp_order),
    decreases k,
{
    lemma_left_out(st, bufs, cur, low, count, k - 1);
    if i < k - 1 {
        lemma_left_out_is_far(st, bufs, cur, low, count, k - 1, i);
    }
}

/// Before the references are filled, a buffer off the current display order is
/// taken only as GOLDEN or ALTREF.
proof fn lemma_taken_by_level(pairs: [RefFrameMapPair; 8], cur: int, i: int)
    requires
        0 <= i < buffer_list(pairs, 8).len(),
        buffer_list(pairs, 8)[i].disp_order != cur,
    ensures
        ({
            let bufs = buffer_list(pairs, 8);
            let st = map_levels(mapping_start(bufs, cur, None), bufs, cur);
            st.used[i] ==> st.map[3] == bufs[i].map_idx || st.map[6] == bufs[i].map_idx
        }),
{
    let bufs = buffer_list(pairs, 8);
    let n = bufs.len() as int;
    let low = lowest_level(bufs, n);
    let s0 = mapping_start(bufs, cur, None);
    let g = |i: int| bufs[i].pyr_level == low && bufs[i].disp_order < cur;
    let h = |i: int| bufs[i].pyr_level == low && bufs[i].disp_order > cur;
    lemma_newest_meets(g, n);
    lemma_newest_meets(h, n);
    assert(!s0.used[i]);
}

/// With eight frames for seven references the one that no reference points at
/// is farthest away: no frame above the lowest level, other than GOLDEN, ALTREF
/// and one of the current display order, is farther from the current frame.
pub proof fn law_farthest_frame_is_left_out(pairs: [RefFrameMapPair; 8], cur: int, b: int)
    requires
        forall|k: int| 0 <= k < 8 ==> #[trigger] is_listed(pairs, k),
        0 <= b < 8,
        pairs[b].disp_order != cur,
        exists|j: int| #[trigger] is_listed(pairs, j) && pairs[j].pyr_level < pairs[b].pyr_level,
        named_mapping(pairs, cur, None).map[GOLDEN_SLOT as int] != b,
        named_mapping(pairs, cur, None).map[ALTREF_SLOT as int] != b,
    ensures
        exists|a: int|
            #![trigger pairs[a]]
            0 <= a < 8 && (forall|k: int|
                0 <= k < 8 ==> #[trigger] named_mapping(pairs, cur, None).map[k] != a) && abs_int(
                cur - pairs[b].disp_order,
            ) <= abs_int(cur - pairs[a].disp_order),
{
    let bufs = buffer_list(pairs, 8);
    let n = bufs.len() as int;
    let low = lowest_level(bufs, n);
    law_buffer_list(pairs, 8);
    lemma_listed(pairs, 8);
    lemma_full_list(pairs, 8);
    assert(is_listed(pairs, b));
    let i = lemma_find(pairs, b);
    let j = choose|j: int| #[trigger] is_listed(pairs, j) && pairs[j].pyr_level < pairs[b].pyr_level;
    let ji = lemma_find(pairs, j);
    lemma_lowest(bufs, n);
    assert(bufs[ji].pyr_level >= low);
    lemma_start_is_fair(pairs, cur, None);
    let s1 = map_levels(mapping_start(bufs, cur, None), bufs, cur);
    assert(own_slots(bufs));
    lemma_prepared(pairs, cur, None);
    let s2 = prepared(bufs, cur, None);
    lemma_fill_named_keeps(s2, bufs, cur);
    lemma_taken_by_level(pairs, cur, i);
    let done = named_mapping(pairs, cur, None);
    assert(!s1.used[i]) by {
        if s1.used[i] {
            assert(s2.map[3] == s1.map[3] && s2.map[6] == s1.map[6]);
            if s1.map[3] == bufs[i].map_idx {
                assert(done.map[3] == s2.map[3]);
            } else {
                assert(done.map[6] == s2.map[6]);
            }
        }
    }
    let count = level_count(bufs, low, n);
    lemma_left_out_is_far(s1, bufs, cur, low, count, n, i);
    lemma_left_out(s1, bufs, cur, low, count, n);
    let x = left_out(s1, bufs, cur, low, count, n)->Some_0;
    assert(s2 == (RefMapping { used: s1.used.update(x, true), map: s1.map }));
    assert(avoids(s2, bufs, x)) by {
        assert forall|k: int| 0 <= k < 8 implies #[trigger] s2.map[k] != bufs[x].map_idx by {
            if s1.map[k] == bufs[x].map_idx {
                assert(s1.used[x]);
            }
        }
    }
    lemma_named_avoids(s2, bufs, cur, x);
    let a = bufs[x].map_idx as int;
    assert(pairs[a].disp_order == bufs[x].disp_order);
}

/// Slots that are all listed are all in the list.
proof fn lemma_full_list(pairs: [RefFrameMapPair; 8], n: int)
    requires
        0 <= n <= 8,
        forall|k: int| 0 <= k < 8 ==> #[trigger] is_listed(pairs, k),
    ensures
        buffer_list(pairs, n).len() == n,
    decreases n,
{
    if n > 0 {
        lemma_full_list(pairs, n - 1);
        law_buffer_list(pairs, n - 1);
        let s = buffer_list(pairs, n - 1);
        let p = pairs[n - 1];
        assert(is_listed(pairs, n - 1));
        assert(!holds_order(s, p.disp_order)) by {
            if holds_order(s, p.disp_order) {
                let i = choose|i: int|
                    0 <= i < s.len() && (#[trigger] s[i]).disp_order == p.disp_order;
                assert(pairs[s[i].map_idx as int].disp_order == p.disp_order);
            }
        }
        let b = RefBuf {
            map_idx: (n - 1) as usize,
            disp_order: p.disp_order,
            pyr_level: p.pyr_level,
        };
        let x = lemma_place(s, b);
        lemma_in_order(s, b, x);
    }
}

/// From GOLDEN on, what is named stays.
proof fn lemma_tail_keeps(m10: RefMapping, bufs: Seq<RefBuf>, cur: int)
    requires
        m10.used.len() == bufs.len(),
        m10.map.len() == 8,
    ensures
        is_later(m10, tail_filled(m10, bufs, cur)),
{
    let m11 = m10.fill_past(bufs, cur, 4);
    lemma_past_keeps(m10, m10, bufs, cur, 4);
    let m12 = m11.fill_past(bufs, cur, 5);
    lemma_past_keeps(m10, m11, bufs, cur, 5);
    let m13 = m12.fill_past(bufs, cur, 6);
    lemma_past_keeps(m10, m12, bufs, cur, 6);
    let m14 = m13.fill_other(bufs, cur, 6);
    lemma_other_keeps(m10, m13, bufs, cur, 6);
    let m15 = m14.fill_other(bufs, cur, 5);
    lemma_other_keeps(m10, m14, bufs, cur, 5);
    let m16 = m15.fill_other(bufs, cur, 4);
    lemma_other_keeps(m10, m15, bufs, cur, 4);
    let m17 = m16.fill_other(bufs, cur, 3);
    lemma_other_keeps(m10, m16, bufs, cur, 3);
    let m18 = m17.fill_other(bufs, cur, 2);
    lemma_other_keeps(m10, m17, bufs, cur, 2);
    let m19 = m18.fill_other(bufs, cur, 1);
    lemma_other_keeps(m10, m18, bufs, cur, 1);
    lemma_other_keeps(m10, m19, bufs, cur, 0);
}

spec fn tail_filled(m10: RefMapping, bufs: Seq<RefBuf>, cur: int) -> RefMapping {
    m10.fill_past(bufs, cur, 4).fill_past(bufs, cur, 5).fill_past(bufs, cur, 6).fill_other(
        bufs,
        cur,
        6,
    ).fill_other(bufs, cur, 5).fill_other(bufs, cur, 4).fill_other(bufs, cur, 3).fill_other(
        bufs,
        cur,
        2,
    ).fill_other(bufs, cur, 1).fill_other(bufs, cur, 0)
}

/// A future buffer that is named leaves a past one free.
proof fn lemma_future_fill_spares(st: RefMapping, bufs: Seq<RefBuf>, cur: int, slot: int, i: int)
    requires
        st.used.len() == bufs.len(),
        st.map.len() == 8,
        4 <= slot < 7,
        0 <= i < bufs.len(),
        bufs[i].disp_order < cur,
        !st.used[i],
    ensures
        ({
            let t = st.fill_future(bufs, cur, slot);
            &&& t.used.len() == bufs.len()
            &&& t.map.len() == 8
            &&& !t.used[i]
            &&& forall|k: int| 0 <= k < 4 ==> #[trigger] t.map[k] == st.map[k]
        }),
{
    let n = bufs.len() as int;
    let f = |i: int| !st.used[i] && bufs[i].disp_order > cur;
    lemma_oldest_meets(f, 0, n);
}

/// Buffers of one level start out unnamed.
proof fn lemma_one_level(pairs: [RefFrameMapPair; 8], cur: int, level: int)
    requires
        buffer_list(pairs, 8).len() <= 7,
        level <= 6,
        forall|j: int| #[trigger] is_listed(pairs, j) ==> pairs[j].pyr_level == level,
    ensures
        ({
            let bufs = buffer_list(pairs, 8);
            let st = prepared(bufs, cur, None);
            &&& st.used.len() == bufs.len()
            &&& st.map == seq![-1int, -1, -1, -1, -1, -1, -1, -1]
            &&& forall|i: int| 0 <= i < bufs.len() ==> !#[trigger] st.used[i]
        }),
{
    let bufs = buffer_list(pairs, 8);
    let n = bufs.len() as int;
    let low = lowest_level(bufs, n);
    law_buffer_list(pairs, 8);
    lemma_listed(pairs, 8);
    lemma_lowest(bufs, n);
    assert forall|i: int| 0 <= i < n implies (#[trigger] bufs[i]).pyr_level == level by {
        assert(is_listed(pairs, bufs[i].map_idx as int));
    }
    if n > 0 {
        assert(bufs[0].pyr_level == level);
        assert(low == level) by {
            if low != level && low != MAX_ARF_LAYERS {
                let i = choose|i: int| 0 <= i < n && (#[trigger] bufs[i]).pyr_level == low;
                assert(bufs[i].pyr_level == level);
            }
        }
    }
    lemma_level_full(bufs, low, n);
    let f = |i: int| bufs[i].pyr_level != low && bufs[i].disp_order == cur;
    lemma_newest_meets(f, n);
    let s0 = mapping_start(bufs, cur, None);
    assert(map_levels(s0, bufs, cur) == s0);
}

proof fn lemma_level_full(s: Seq<RefBuf>, level: int, n: int)
    requires
        0 <= n <= s.len(),
        forall|i: int| 0 <= i < n ==> (#[trigger] s[i]).pyr_level == level,
    ensures
        level_count(s, level, n) == n,
    decreases n,
{
    if n > 0 {
        lemma_level_full(s, level, n - 1);
    }
}

/// Where all frames are of one level, GOLDEN is the newest past frame behind
/// LAST, LAST2 and LAST3, and ALTREF the oldest future frame behind BWDREF and
/// ALTREF2.
pub proof fn law_frames_of_one_level_are_named_in_order(
    pairs: [RefFrameMapPair; 8],
    cur: int,
    e: int,
    k: int,
)
    requires
        0 <= e < 8,
        !is_listed(pairs, e),
        is_listed(pairs, k),
        pairs[k].pyr_level <= 6,
        forall|j: int| #[trigger] is_listed(pairs, j) ==> pairs[j].pyr_level == pairs[k].pyr_level,
    ensures
        ({
            let m = named_mapping(pairs, cur, None).map;
            &&& pairs[k].disp_order < cur && m[0] != k && m[1] != k && m[2] != k ==> is_listed(
                pairs,
                m[3],
            ) && pairs[k].disp_order <= pairs[m[3]].disp_order < cur
            &&& pairs[k].disp_order > cur && m[4] != k && m[5] != k ==> is_listed(pairs, m[6]) && cur
                < pairs[m[6]].disp_order <= pairs[k].disp_order
        }),
{
    let bufs = buffer_list(pairs, 8);
    let n = bufs.len() as int;
    law_buffer_list(pairs, 8);
    lemma_listed(pairs, 8);
    lemma_room(pairs, e, 8);
    let i = lemma_find(pairs, k);
    lemma_one_level(pairs, cur, pairs[k].pyr_level as int);
    let st = prepared(bufs, cur, None);
    let done = named_mapping(pairs, cur, None);
    lemma_fill_named_keeps(st, bufs, cur);
    if pairs[k].disp_order < cur && done.map[0] != k && done.map[1] != k && done.map[2] != k {
        lemma_fourth_past(pairs, cur, k, i);
    }
    if pairs[k].disp_order > cur && done.map[4] != k && done.map[5] != k {
        lemma_third_future(pairs, cur, k, i);
    }
}

proof fn lemma_fourth_past(pairs: [RefFrameMapPair; 8], cur: int, k: int, i: int)
    requires
        ({
            let bufs = buffer_list(pairs, 8);
            let st = prepared(bufs, cur, None);
            let done = named_mapping(pairs, cur, None);
            &&& ordered(bufs)
            &&& 0 <= i < bufs.len()
            &&& bufs[i].map_idx == k
            &&& bufs[i].disp_order == pairs[k].disp_order
            &&& bufs[i].disp_order < cur
            &&& st.used.len() == bufs.len()
            &&& st.map == seq![-1int, -1, -1, -1, -1, -1, -1, -1]
            &&& !st.used[i]
            &&& done.map[0] != k && done.map[1] != k && done.map[2] != k
            &&& forall|j: int|
                0 <= j < bufs.len() ==> is_listed(pairs, (#[trigger] bufs[j]).map_idx as int)
                    && pairs[bufs[j].map_idx as int].disp_order == bufs[j].disp_order
        }),
    ensures
        ({
            let m = named_mapping(pairs, cur, None).map;
            is_listed(pairs, m[3]) && pairs[k].disp_order <= pairs[m[3]].disp_order < cur
        }),
{
    let bufs = buffer_list(pairs, 8);
    let n = bufs.len() as int;
    let st = prepared(bufs, cur, None);
    let done = named_mapping(pairs, cur, None);
    let f0 = |i: int| !st.used[i] && bufs[i].disp_order < cur;
    assert(f0(i));
    lemma_newest_last(f0, n, i);
    let m1 = st.fill_past(bufs, cur, 0);
    lemma_past_keeps(st, st, bufs, cur, 0);
    let p0 = newest(f0, n)->Some_0;
    assert(m1.map[0] == bufs[p0].map_idx);
    let m2 = m1.fill_past(bufs, cur, 1);
    lemma_past_keeps(m1, m1, bufs, cur, 1);
    let m3 = m2.fill_past(bufs, cur, 2);
    lemma_past_keeps(m2, m2, bufs, cur, 2);
    lemma_fill_named_keeps(st, bufs, cur);
    assert(m2.map[0] == m1.map[0] && m3.map[0] == m2.map[0]);
    assert(done.map[0] == m3.map[0]);
    assert(p0 != i);
    assert(!m1.used[i]);
    let f1 = |i: int| !m1.used[i] && bufs[i].disp_order < cur;
    assert(f1(i));
    lemma_newest_last(f1, n, i);
    let p1 = newest(f1, n)->Some_0;
    assert(m2.map[1] == bufs[p1].map_idx);
    assert(m3.map[1] == m2.map[1]);
    assert(done.map[1] == m3.map[1]);
    assert(p1 != i);
    assert(!m2.used[i]);
    let f2 = |i: int| !m2.used[i] && bufs[i].disp_order < cur;
    assert(f2(i));
    lemma_newest_last(f2, n, i);
    let p2 = newest(f2, n)->Some_0;
    assert(m3.map[2] == bufs[p2].map_idx);
    assert(done.map[2] == m3.map[2]);
    assert(p2 != i);
    assert(!m3.used[i]);
    assert(m3.map[3] == -1);
    let m4 = m3.fill_future(bufs, cur, 4);
    lemma_future_fill_spares(m3, bufs, cur, 4, i);
    let m5 = m4.fill_future(bufs, cur, 5);
    lemma_future_fill_spares(m4, bufs, cur, 5, i);
    let m6 = m5.fill_future(bufs, cur, 6);
    lemma_future_fill_spares(m5, bufs, cur, 6, i);
    assert(m6.map[0] != -1 && m6.map[1] != -1 && m6.map[2] != -1 && m6.map[3] == -1);
    let m7 = m6.fill_past(bufs, cur, 0);
    let m8 = m7.fill_past(bufs, cur, 1);
    let m9 = m8.fill_past(bufs, cur, 2);
    assert(m7 == m6 && m8 == m6 && m9 == m6);
    let m10 = m9.fill_past(bufs, cur, 3);
    lemma_past_keeps(m9, m9, bufs, cur, 3);
    let f9 = |i: int| !m9.used[i] && bufs[i].disp_order < cur;
    assert(f9(i));
    lemma_newest_last(f9, n, i);
    let p9 = newest(f9, n)->Some_0;
    assert(m10.map[3] == bufs[p9].map_idx);
    lemma_tail_keeps(m10, bufs, cur);
    assert(tail_filled(m10, bufs, cur) == fill_named(st, bufs, cur));
    assert(done.map[3] == bufs[p9].map_idx);
    assert(i < p9 ==> bufs[i].disp_order < bufs[p9].disp_order);
    assert(is_listed(pairs, bufs[p9].map_idx as int));
}

proof fn lemma_third_future(pairs: [RefFrameMapPair; 8], cur: int, k: int, i: int)
    requires
        ({
            let bufs = buffer_list(pairs, 8);
            let st = prepared(bufs, cur, None);
            let done = named_mapping(pairs, cur, None);
            &&& ordered(bufs)
            &&& 0 <= i < bufs.len()
            &&& bufs[i].map_idx == k
            &&& bufs[i].disp_order == pairs[k].disp_order
            &&& bufs[i].disp_order > cur
            &&& st.used.len() == bufs.len()
            &&& st.map == seq![-1int, -1, -1, -1, -1, -1, -1, -1]
            &&& !st.used[i]
            &&& done.map[4] != k && done.map[5] != k
            &&& forall|j: int|
                0 <= j < bufs.len() ==> is_listed(pairs, (#[trigger] bufs[j]).map_idx as int)
                    && pairs[bufs[j].map_idx as int].disp_order == bufs[j].disp_order
        }),
    ensures
        ({
            let m = named_mapping(pairs, cur, None).map;
            is_listed(pairs, m[6]) && cur < pairs[m[6]].disp_order <= pairs[k].disp_order
        }),
{
    let bufs = buffer_list(pairs, 8);
    let n = bufs.len() as int;
    let st = prepared(bufs, cur, None);
    let done = named_mapping(pairs, cur, None);
    lemma_fill_named_keeps(st, bufs, cur);
    let m1 = st.fill_past(bufs, cur, 0);
    lemma_past_fill_spares(st, bufs, cur, 0, i);
    let m2 = m1.fill_past(bufs, cur, 1);
    lemma_past_fill_spares(m1, bufs, cur, 1, i);
    let m3 = m2.fill_past(bufs, cur, 2);
    lemma_past_fill_spares(m2, bufs, cur, 2, i);
    assert(m3.map[4] == -1 && m3.map[5] == -1 && m3.map[6] == -1);
    let m4 = m3.fill_future(bufs, cur, 4);
    lemma_future_keeps(m3, m3, bufs, cur, 4);
    let f4 = |i: int| !m3.used[i] && bufs[i].disp_order > cur;
    assert(f4(i));
    lemma_oldest_first(f4, 0, n, i);
    let p4 = oldest(f4, 0, n)->Some_0;
    assert(m4.map[4] == bufs[p4].map_idx);
    let m5 = m4.fill_future(bufs, cur, 5);
    lemma_future_keeps(m4, m4, bufs, cur, 5);
    assert(m5.map[4] == m4.map[4]);
    assert(done.map[4] == m5.map[4]);
    assert(p4 != i);
    assert(!m4.used[i]);
    let f5 = |i: int| !m4.used[i] && bufs[i].disp_order > cur;
    assert(f5(i));
    lemma_oldest_first(f5, 0, n, i);
    let p5 = oldest(f5, 0, n)->Some_0;
    assert(m5.map[5] == bufs[p5].map_idx);
    assert(done.map[5] == m5.map[5]);
    assert(p5 != i);
    assert(!m5.used[i]);
    let m6 = m5.fill_future(bufs, cur, 6);
    lemma_future_keeps(m5, m5, bufs, cur, 6);
    let f6 = |i: int| !m5.used[i] && bufs[i].disp_order > cur;
    assert(f6(i));
    lemma_oldest_first(f6, 0, n, i);
    let p6 = oldest(f6, 0, n)->Some_0;
    assert(m6.map[6] == bufs[p6].map_idx);
    let m7 = m6.fill_past(bufs, cur, 0);
    lemma_past_keeps(m6, m6, bufs, cur, 0);
    let m8 = m7.fill_past(bufs, cur, 1);
    lemma_past_keeps(m6, m7, bufs, cur, 1);
    let m9 = m8.fill_past(bufs, cur, 2);
    lemma_past_keeps(m6, m8, bufs, cur, 2);
    let m10 = m9.fill_past(bufs, cur, 3);
    lemma_past_keeps(m6, m9, bufs, cur, 3);
    lemma_tail_keeps(m10, bufs, cur);
    assert(tail_filled(m10, bufs, cur) == fill_named(st, bufs, cur));
    assert(m10.map[6] == m6.map[6]);
    assert(done.map[6] == bufs[p6].map_idx);
    assert(p6 < i ==> bufs[p6].disp_order < bufs[i].disp_order);
    assert(is_listed(pairs, bufs[p6].map_idx as int));
}

/// The primary reference is one that points at the wanted buffer, and none
/// after it does; without one there is no primary reference.
pub proof fn law_primary_reference_points_at_the_wanted(s: Seq<i32>, wanted: i32, n: int, k: int)
    requires
        0 <= k < n <= 7,
    ensures
        ({
            let r = last_match(s, wanted, n);
            &&& (r != PRIMARY_REF_NONE ==> 0 <= r < n && s[r] == wanted)
            &&& (s[k] == wanted ==> r != PRIMARY_REF_NONE && k <= r)
        }),
    decreases n,
{
    if n > 1 {
        law_primary_reference_points_at_the_wanted(
            s,
            wanted,
            n - 1,
            if k < n - 1 {
                k
            } else {
                0
            },
        );
    } else {
        assert(last_match(s, wanted, 0) == PRIMARY_REF_NONE);
    }
}

/// A role that is asked for from outside refreshes what was asked for last:
/// the backward buffer before the alternate and that before the golden one.
/// Clearing the buffer only adds refreshes, and only a key frame refreshes all
/// three without it; a leaf refreshes none.
pub proof fn law_role_refreshes_its_buffer(ty: FrameUpdateType, ext: ExtRefreshFrameFlags)
    ensures
        ({
            let (u, r) = (
                role_refresh(ty, RefbufState::Update),
                role_refresh(ty, RefbufState::Reset),
            );
            &&& (u.golden_frame ==> r.golden_frame)
            &&& (u.bwd_ref_frame ==> r.bwd_ref_frame)
            &&& (u.alt_ref_frame ==> r.alt_ref_frame)
            &&& (u.golden_frame && u.bwd_ref_frame && u.alt_ref_frame <==> ty
                == FrameUpdateType::Kf)
            &&& (!u.golden_frame && !u.bwd_ref_frame && !u.alt_ref_frame <==> u == r && (ty
                == FrameUpdateType::Lf || ty == FrameUpdateType::IntnlOverlay))
            &&& (r.golden_frame && r.bwd_ref_frame && r.alt_ref_frame <==> ty
                == FrameUpdateType::Kf || ty == FrameUpdateType::Arf || ty
                == FrameUpdateType::Overlay)
        }),
        match requested_role(ext) {
            Some(t) => {
                let u = role_refresh(t, RefbufState::Update);
                &&& (ext.bwd_ref_frame ==> u.bwd_ref_frame)
                &&& (ext.alt_ref_frame && !ext.bwd_ref_frame ==> u.alt_ref_frame)
                &&& (!ext.alt_ref_frame && !ext.bwd_ref_frame ==> ext.golden_frame
                    && u.golden_frame)
            },
            None => !ext.bwd_ref_frame && !ext.alt_ref_frame && !ext.golden_frame,
        },
{
}

} // verus!
