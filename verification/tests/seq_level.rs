//! The level of a sequence.

use aom_encode::seq_level::{
    does_level_match, inferred_seq_level_from_dims, seq_header_seq_level_idx, SEQ_LEVEL_2_0,
    SEQ_LEVEL_2_1, SEQ_LEVEL_4_0, SEQ_LEVEL_5_1, SEQ_LEVEL_6_2, SEQ_LEVEL_MAX,
};

/// No level is ruled out by its rate.
const ANY_RATE: [bool; 12] = [true; 12];

#[test]
fn level_limits_area_sides_and_rate() {
    assert!(does_level_match(512, 288, 512, 288, 4, true));
    assert!(!does_level_match(512, 288, 512, 288, 4, false));
    assert!(!does_level_match(513, 288, 512, 288, 4, true));
    assert!(does_level_match(2048, 72, 512, 288, 4, true));
    assert!(!does_level_match(2049, 71, 512, 288, 4, true));
}

#[test]
fn lowest_level_that_fits() {
    assert_eq!(inferred_seq_level_from_dims(352, 288, &ANY_RATE), SEQ_LEVEL_2_0);
    assert_eq!(inferred_seq_level_from_dims(640, 360, &ANY_RATE), SEQ_LEVEL_2_1);
    assert_eq!(inferred_seq_level_from_dims(1920, 1080, &ANY_RATE), SEQ_LEVEL_4_0);
    assert_eq!(inferred_seq_level_from_dims(16384, 8704, &ANY_RATE), SEQ_LEVEL_MAX);
    let mut rate = [false; 12];
    rate[7] = true;
    rate[11] = true;
    assert_eq!(inferred_seq_level_from_dims(1920, 1080, &rate), SEQ_LEVEL_5_1);
    assert_eq!(inferred_seq_level_from_dims(7680, 4320, &rate), SEQ_LEVEL_6_2);
}

#[test]
fn target_raises_the_level() {
    assert_eq!(seq_header_seq_level_idx(352, 288, &ANY_RATE, SEQ_LEVEL_4_0), SEQ_LEVEL_4_0);
    assert_eq!(seq_header_seq_level_idx(1920, 1080, &ANY_RATE, SEQ_LEVEL_2_0), SEQ_LEVEL_4_0);
    assert_eq!(seq_header_seq_level_idx(352, 288, &ANY_RATE, 31), SEQ_LEVEL_2_0);
}
