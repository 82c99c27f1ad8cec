//! Reference buffers of a group of pictures.

use aom_encode::frame_flags;
use aom_encode::ref_gop::{
    additional_frame_flags, apply_ext_overrides, calc_refresh_idx_for_intnl_arf,
    choose_primary_ref_frame, configure_buffer_updates, free_ref_map_index, get_ref_frames,
    get_ref_frames_from_ext_map, get_refresh_frame_flags, new_fb_map_idx_rc, refresh_idx,
    refresh_ref_frame_map, update_frame_flags, ExtRefreshFrameFlags, FrameType, FrameUpdateType,
    ParallelSkip, RefFrameMapPair, RefbufState, RefreshFrameInfo, PRIMARY_REF_NONE, REF_FRAMES,
    SELECT_ALL_BUF_SLOTS,
};

#[test]
fn refresh_ref_frame_map_is_the_lowest_set_bit() {
    assert_eq!(refresh_ref_frame_map(0), None);
    assert_eq!(refresh_ref_frame_map(1), Some(0));
    assert_eq!(refresh_ref_frame_map(0b1010_0000), Some(5));
    assert_eq!(refresh_ref_frame_map(SELECT_ALL_BUF_SLOTS), Some(0));
}

#[test]
fn configure_buffer_updates_matches_the_c_switch() {
    let none = RefbufState::Update;
    let cases = [
        (FrameUpdateType::Kf, (true, true, true), false),
        (FrameUpdateType::Lf, (false, false, false), false),
        (FrameUpdateType::Gf, (true, false, false), false),
        (FrameUpdateType::Arf, (false, false, true), false),
        (FrameUpdateType::Overlay, (true, false, false), true),
        (FrameUpdateType::IntnlOverlay, (false, false, false), true),
        (FrameUpdateType::IntnlArf, (false, true, false), false),
    ];
    for (ty, (g, b, a), alt_ref) in cases {
        let (out, retype) = configure_buffer_updates(ty, none, false, None);
        assert_eq!(
            (
                out.refresh.golden_frame,
                out.refresh.bwd_ref_frame,
                out.refresh.alt_ref_frame
            ),
            (g, b, a),
            "{ty:?}"
        );
        assert_eq!(out.is_src_frame_alt_ref, alt_ref, "{ty:?}");
        assert_eq!(retype, None);
    }
    // A reset turns both an overlay and an alternate reference into a refresh
    // of everything.
    for ty in [FrameUpdateType::Overlay, FrameUpdateType::Arf] {
        let (out, _) = configure_buffer_updates(ty, RefbufState::Reset, false, None);
        assert_eq!(
            out.refresh,
            RefreshFrameInfo {
                golden_frame: true,
                bwd_ref_frame: true,
                alt_ref_frame: true
            }
        );
    }
    // A forced refresh wins over the request from outside.
    let ext = ExtRefreshFrameFlags::default();
    let (out, _) = configure_buffer_updates(FrameUpdateType::Lf, none, true, Some(ext));
    assert!(out.refresh.golden_frame && out.refresh.bwd_ref_frame && out.refresh.alt_ref_frame);
}

#[test]
fn ext_override_update_type_takes_the_last_matching_flag() {
    let ext = ExtRefreshFrameFlags {
        golden_frame: true,
        alt_ref_frame: true,
        bwd_ref_frame: true,
        ..Default::default()
    };
    let (_, retype) =
        configure_buffer_updates(FrameUpdateType::Lf, RefbufState::Update, false, Some(ext));
    assert_eq!(retype, Some(FrameUpdateType::IntnlArf));
}

#[test]
fn update_frame_flags_clears_all_four_on_show_existing() {
    let all = frame_flags::GOLDEN
        | frame_flags::BWDREF
        | frame_flags::ALTREF
        | frame_flags::KEY
        | frame_flags::SWITCH;
    let out = update_frame_flags(all, RefreshFrameInfo::default(), FrameType::Key, true);
    assert_eq!(out, frame_flags::SWITCH);
}

#[test]
fn choose_primary_ref_frame_takes_the_last_match_not_the_first() {
    // Two named references point at buffer 3: the last one is kept.
    let map = [3, 1, 2, 3, 4, 5, 3];
    assert_eq!(
        choose_primary_ref_frame(FrameType::Inter, false, false, &map, 3),
        6
    );
    assert_eq!(
        choose_primary_ref_frame(FrameType::Inter, false, false, &map, 9),
        PRIMARY_REF_NONE
    );
    assert_eq!(
        choose_primary_ref_frame(FrameType::Key, false, false, &map, 3),
        PRIMARY_REF_NONE
    );
    assert_eq!(
        choose_primary_ref_frame(FrameType::Inter, true, false, &map, 3),
        PRIMARY_REF_NONE
    );
}

#[test]
fn free_slot_beats_replacement_in_the_refresh_mask() {
    let mut pairs = [RefFrameMapPair::empty(); REF_FRAMES];
    for (i, p) in pairs.iter_mut().enumerate().take(5) {
        *p = RefFrameMapPair {
            pyr_level: 2,
            disp_order: i as i32,
        };
    }
    let skip = [-1; REF_FRAMES];
    let mask = get_refresh_frame_flags(
        &pairs,
        RefbufState::Update,
        FrameType::Inter,
        false,
        FrameUpdateType::Lf,
        &skip,
        true,
        10,
        None,
    );
    assert_eq!(mask, Some(1 << 5));
}

#[test]
fn every_named_slot_is_filled_with_a_real_buffer() {
    // Eight occupied buffers, seven named slots: one must go unmapped, and
    // every returned entry must still be a valid buffer index.
    let mut pairs = [RefFrameMapPair::empty(); REF_FRAMES];
    for (i, p) in pairs.iter_mut().enumerate() {
        *p = RefFrameMapPair {
            pyr_level: if i == 0 { 1 } else { 2 },
            disp_order: i as i32,
        };
    }
    let remapped = get_ref_frames(&pairs, 20, None);
    assert!(remapped.iter().all(|&i| (0..8).contains(&i)));
}

#[test]
fn named_slots_share_no_buffer_while_buffers_suffice() {
    let mut pairs = [RefFrameMapPair::empty(); REF_FRAMES];
    for (i, p) in pairs.iter_mut().enumerate() {
        *p = RefFrameMapPair {
            pyr_level: 1 + (i as i32) % 3,
            disp_order: 4 * i as i32,
        };
    }
    let remapped = get_ref_frames(&pairs, 14, None);
    for a in 0..7 {
        for b in 0..a {
            assert_ne!(remapped[a], remapped[b]);
        }
    }
}

#[test]
fn seven_buffers_name_every_reference() {
    for (empty, cur) in [(None, 14), (None, 40), (None, -1), (Some(0), 9), (Some(5), 9)] {
        let mut pairs = [RefFrameMapPair::empty(); REF_FRAMES];
        for (i, p) in pairs.iter_mut().enumerate() {
            if empty != Some(i) {
                *p = RefFrameMapPair {
                    pyr_level: 1 + (i as i32) % 3,
                    disp_order: 4 * i as i32,
                };
            }
        }
        let remapped = get_ref_frames(&pairs, cur, None);
        let mut orders: Vec<i32> =
            remapped[..7].iter().map(|&k| pairs[k as usize].disp_order).collect();
        assert!(remapped[..7].iter().all(|&k| empty != Some(k as usize)));
        orders.sort_unstable();
        orders.dedup();
        assert_eq!(orders.len(), 7);
    }
}

#[test]
fn parallel_skip_leaves_a_buffer_out() {
    let mut pairs = [RefFrameMapPair::empty(); REF_FRAMES];
    for (i, p) in pairs.iter_mut().enumerate() {
        *p = RefFrameMapPair {
            pyr_level: 2,
            disp_order: i as i32,
        };
    }
    let all = get_ref_frames(&pairs, 20, None);
    assert!(all[..7].contains(&7));
    let by_index = get_ref_frames(&pairs, 20, Some(ParallelSkip::MapIdx(7)));
    let by_order = get_ref_frames(&pairs, 20, Some(ParallelSkip::DispOrder(7)));
    assert_eq!(by_index, by_order);
    assert!(!by_index[..7].contains(&7));
}

#[test]
fn outside_map_replaces_unset_entries_by_buffer_zero() {
    assert_eq!(
        get_ref_frames_from_ext_map(&[4, -1, 2, 7, -1, 1, 6]),
        [4, 0, 2, 7, 0, 1, 6, 0]
    );
}

#[test]
fn frame_flags_follow_the_frame_type() {
    assert_eq!(additional_frame_flags(FrameType::Inter, false), 0);
    assert_eq!(
        additional_frame_flags(FrameType::Key, false),
        frame_flags::INTRAONLY
    );
    assert_eq!(
        additional_frame_flags(FrameType::Switch, true),
        frame_flags::SWITCH | frame_flags::ERROR_RESILIENT
    );
    let gold = RefreshFrameInfo {
        golden_frame: true,
        ..Default::default()
    };
    assert_eq!(
        update_frame_flags(frame_flags::ALTREF, gold, FrameType::Inter, false),
        frame_flags::GOLDEN
    );
    assert_eq!(
        update_frame_flags(0, gold, FrameType::Key, false),
        frame_flags::GOLDEN | frame_flags::KEY
    );
}

#[test]
fn switch_frames_are_error_resilient() {
    assert_eq!(
        apply_ext_overrides(FrameType::Inter, true, false),
        (FrameType::Switch, true)
    );
    assert_eq!(
        apply_ext_overrides(FrameType::Key, false, true),
        (FrameType::Key, false)
    );
    assert_eq!(
        apply_ext_overrides(FrameType::Inter, false, true),
        (FrameType::Inter, true)
    );
}

#[test]
fn droppable_frames_refresh_nothing() {
    assert!(ExtRefreshFrameFlags::default().is_frame_droppable());
    let last = ExtRefreshFrameFlags {
        last_frame: true,
        ..Default::default()
    };
    assert!(!last.is_frame_droppable());
    let mut info = RefreshFrameInfo::default();
    info.set(true, false, true);
    assert!(info.golden_frame && !info.bwd_ref_frame && info.alt_ref_frame);
}

#[test]
fn free_slot_is_the_first_empty_one() {
    let mut pairs = [RefFrameMapPair::default(); REF_FRAMES];
    assert_eq!(free_ref_map_index(&pairs), Some(0));
    for (i, p) in pairs.iter_mut().enumerate() {
        if i != 6 {
            *p = RefFrameMapPair {
                pyr_level: 1,
                disp_order: i as i32,
            };
        }
    }
    assert!(!pairs[6].is_occupied());
    assert_eq!(free_ref_map_index(&pairs), Some(6));
    pairs[6].disp_order = 6;
    assert_eq!(free_ref_map_index(&pairs), None);
}

#[test]
fn oldest_buffer_is_replaced() {
    let mut pairs = [RefFrameMapPair::empty(); REF_FRAMES];
    for (i, p) in pairs.iter_mut().enumerate() {
        *p = RefFrameMapPair {
            pyr_level: 3,
            disp_order: 10 - i as i32,
        };
    }
    let skip = [-1; REF_FRAMES];
    assert_eq!(refresh_idx(&pairs, false, &skip, false, 30), Some(7));
    assert_eq!(
        get_refresh_frame_flags(
            &pairs,
            RefbufState::Update,
            FrameType::Inter,
            false,
            FrameUpdateType::Lf,
            &skip,
            false,
            30,
            None,
        ),
        Some(1 << 7)
    );
}

#[test]
fn resets_refresh_everything_and_shown_frames_nothing() {
    let pairs = [RefFrameMapPair::empty(); REF_FRAMES];
    let skip = [-1; REF_FRAMES];
    assert_eq!(
        get_refresh_frame_flags(
            &pairs,
            RefbufState::Reset,
            FrameType::Key,
            false,
            FrameUpdateType::Kf,
            &skip,
            false,
            0,
            None,
        ),
        Some(SELECT_ALL_BUF_SLOTS)
    );
    let map = [3, 1, 2, 4, 0, 6, 5, 7];
    let golden = ExtRefreshFrameFlags {
        golden_frame: true,
        ..Default::default()
    };
    for (ty, mask) in [(FrameUpdateType::Lf, 1 << 4), (FrameUpdateType::Overlay, 1 << 5)] {
        assert_eq!(
            get_refresh_frame_flags(
                &pairs,
                RefbufState::Update,
                FrameType::Inter,
                false,
                ty,
                &skip,
                false,
                0,
                Some((golden, &map)),
            ),
            Some(mask)
        );
    }
    assert_eq!(
        get_refresh_frame_flags(
            &pairs,
            RefbufState::Update,
            FrameType::Inter,
            true,
            FrameUpdateType::IntnlOverlay,
            &skip,
            false,
            4,
            None,
        ),
        Some(0)
    );
}

#[test]
fn mask_of_a_slot_is_its_bit() {
    assert_eq!(new_fb_map_idx_rc(Some(3)), 1 << 3);
    assert_eq!(new_fb_map_idx_rc(None), 0);
    let pairs = [RefFrameMapPair::empty(); REF_FRAMES];
    assert_eq!(
        calc_refresh_idx_for_intnl_arf(&pairs, &[-1; REF_FRAMES], false, 8),
        Some(0)
    );
}
