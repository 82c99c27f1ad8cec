//! Detection of screen content.

use aom_encode::screen_detect::{
    count_colors_with_threshold, dilate_block, estimate_screen_content_antialiasing_aware,
    find_dominant_value, perpixel_variance_16x16, ScreenContentDecision,
};

#[test]
fn dominant_value_tie_keeps_first_to_reach_the_count() {
    // Three times 0, then three times 7: 0 reaches the count first.
    let blk = [0u8, 0, 0, 7, 7, 7];
    assert_eq!(find_dominant_value(&blk, 6, 1, 6), 0);
    let blk = [7u8, 7, 7, 0, 0, 0];
    assert_eq!(find_dominant_value(&blk, 6, 1, 6), 7);
}

#[test]
fn threshold_count_bails_at_threshold_plus_one() {
    let blk: Vec<u8> = (0..16u8).collect();
    assert_eq!(count_colors_with_threshold(&blk, 16, 1, 16, 40), (true, 16));
    assert_eq!(count_colors_with_threshold(&blk, 16, 1, 16, 4), (false, 5));
}

#[test]
fn dilation_extends_the_dominant_value_to_all_eight_neighbours() {
    // A 4x4 block: dominant 9 in the middle 2x2, the rest distinct.
    let mut src = [0u8; 16];
    let mut k = 1u8;
    for (i, v) in src.iter_mut().enumerate() {
        if matches!(i, 5 | 6 | 9 | 10) {
            *v = 9;
        } else {
            *v = k;
            k += 1;
            if k == 9 {
                k = 13;
            }
        }
    }
    let mut out = [0u8; 16];
    dilate_block(&src, 4, &mut out, 4, 4, 4);
    assert!(out.iter().all(|&v| v == 9), "{out:?}");
}

#[test]
fn flat_frame_is_not_screen_content() {
    // 64x64 solid grey: every block has one colour and is counted nowhere.
    let src = vec![128u16; 64 * 64];
    let d = estimate_screen_content_antialiasing_aware(&src, 0, 64, 64, 64, 8, false);
    assert_eq!((d.count_palette, d.count_intrabc, d.count_photo), (0, 0, 0));
    assert!(!d.allow_screen_content_tools && !d.allow_intrabc);
}

#[test]
fn two_colour_textured_frame_enables_both_tools() {
    // 64x64 checkerboard of 0 and 255 at two samples: two colours, high
    // variance.
    let mut src = vec![0u16; 64 * 64];
    for r in 0..64 {
        for c in 0..64 {
            if ((r / 2) + (c / 2)) % 2 == 0 {
                src[r * 64 + c] = 255;
            }
        }
    }
    let d = estimate_screen_content_antialiasing_aware(&src, 0, 64, 64, 64, 8, false);
    assert_eq!(
        (d.count_palette, d.count_intrabc, d.count_photo),
        (16, 16, 0)
    );
    assert!(d.allow_screen_content_tools && d.allow_intrabc);
    // Fast detection: 8 of the 16 blocks visited, each counted twice.
    let f = estimate_screen_content_antialiasing_aware(&src, 0, 64, 64, 64, 8, true);
    assert_eq!((f.count_palette, f.count_intrabc), (16, 16));
}

#[test]
fn noisy_frame_is_photographic() {
    let src: Vec<u16> = (0..64u32 * 64)
        .map(|i| ((i.wrapping_mul(2654435761) >> 13) & 255) as u16)
        .collect();
    let d = estimate_screen_content_antialiasing_aware(&src, 0, 64, 64, 64, 8, false);
    assert_eq!((d.count_palette, d.count_intrabc, d.count_photo), (0, 0, 16));
    assert!(!d.allow_screen_content_tools);
    assert!(!d.allow_intrabc && !d.is_screen_content_type);
}

#[test]
fn variance_per_sample() {
    let flat = vec![77u16; 16 * 16];
    assert_eq!(perpixel_variance_16x16(&flat, 0, 16, 8), 0);
    // Half 0, half 16: the variance is 8 * 8.
    let halves: Vec<u16> = (0..256).map(|i| if i < 128 { 0 } else { 16 }).collect();
    assert_eq!(perpixel_variance_16x16(&halves, 0, 16, 8), 64);
}

#[test]
fn fixed_decisions() {
    let off = ScreenContentDecision::detection_disabled();
    assert!(!off.allow_screen_content_tools && !off.allow_intrabc);
    let forced = ScreenContentDecision::forced(true);
    assert!(forced.allow_screen_content_tools);
    let tuned = ScreenContentDecision::tuned_screen();
    assert!(tuned.allow_screen_content_tools && tuned.allow_intrabc);
    assert!(tuned.is_screen_content_type);
}
