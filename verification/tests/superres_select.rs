//! The superres denominator.

use aom_encode::superres_select::{
    auto_key_reads_energy, hor_freq_blocks, hor_freq_energy, qthresh_key_reads_energy,
    superres_denom_auto_key, superres_denom_from_energy, superres_denom_qthresh_key,
    superres_denom_random, superres_denom_random_first_frame, SuperresAutoSearchType,
    SCALE_NUMERATOR, SUPERRES_RANDOM_SEED_INIT,
};

#[test]
fn random_first_frame_is_deterministic() {
    assert_eq!(superres_denom_random_first_frame(), 11);
}

#[test]
fn random_seed_sequence_matches_c_static() {
    // The seed advances once per frame.
    let mut seed = SUPERRES_RANDOM_SEED_INIT;
    let seq: Vec<u8> = (0..4).map(|_| superres_denom_random(&mut seed)).collect();
    assert_eq!(seq, vec![11, 14, 15, 9]);
}

#[test]
fn tiny_frame_yields_no_superres() {
    // At most 16 wide or 4 high: no block to analyse. Every frequency then
    // exceeds every threshold.
    let src = vec![100u16; 12 * 12];
    assert!(hor_freq_blocks(&src, 12, 12, 12).iter().all(|row| row.is_empty()));
    assert_eq!(superres_denom_from_energy(&[true; 16]), 8);
}

#[test]
fn blocks_leave_a_rest_behind_them() {
    let src: Vec<u16> = (0..34 * 9).map(|i| (i % 97) as u16).collect();
    let blocks = hor_freq_blocks(&src, 34, 9, 34);
    assert_eq!(blocks.len(), 2);
    assert_eq!(blocks[0].len(), 2);
    assert_eq!(blocks[1][1][17], src[5 * 34 + 17] as i16);
    assert!(hor_freq_blocks(&src, 16, 9, 34).iter().all(|row| row.is_empty()));
    assert!(hor_freq_blocks(&src, 34, 4, 34).is_empty());
}

#[test]
fn energy_adds_up_over_rows_and_blocks() {
    let mut a = [0i32; 64];
    a[1] = 6;
    a[17] = -2;
    a[0] = 1000;
    let mut b = [0i32; 64];
    b[63] = 9;
    let e = hor_freq_energy(&vec![a, b], 8);
    assert_eq!(e[0], 0);
    assert_eq!(e[1], 10);
    assert_eq!(e[15], 20);
    let e = hor_freq_energy(&vec![a, b], 10);
    assert_eq!(e[1], 1);
}

#[test]
fn denominator_stops_at_the_first_frequency_that_matters() {
    let mut exceeds = [false; 16];
    assert_eq!(superres_denom_from_energy(&exceeds), 16);
    exceeds[8] = true;
    assert_eq!(superres_denom_from_energy(&exceeds), 15);
    exceeds[15] = true;
    assert_eq!(superres_denom_from_energy(&exceeds), 8);
}

#[test]
fn threshold_mode_needs_a_coarse_quantizer() {
    assert_eq!(superres_denom_qthresh_key(100, 100, false, 13), SCALE_NUMERATOR);
    assert_eq!(superres_denom_qthresh_key(101, 100, false, 13), 13);
    assert_eq!(superres_denom_qthresh_key(101, 100, true, 13), SCALE_NUMERATOR);
}

#[test]
fn automatic_mode_needs_a_coarse_quantizer() {
    assert_eq!(
        superres_denom_auto_key(128, false, SuperresAutoSearchType::Solo, 12, 14),
        SCALE_NUMERATOR
    );
    assert_eq!(
        superres_denom_auto_key(129, false, SuperresAutoSearchType::Solo, 12, 14),
        14
    );
    assert_eq!(
        superres_denom_auto_key(129, false, SuperresAutoSearchType::All, 12, 14),
        12
    );
    assert_eq!(
        superres_denom_auto_key(255, true, SuperresAutoSearchType::Dual, 12, 14),
        SCALE_NUMERATOR
    );
}

#[test]
fn energy_is_read_only_where_it_decides() {
    for q in [0, 1, 100, 101, 128, 129] {
        for screen in [false, true] {
            let differs = superres_denom_qthresh_key(q, 100, screen, 13)
                != superres_denom_qthresh_key(q, 100, screen, 14);
            assert_eq!(qthresh_key_reads_energy(q, 100, screen), differs);
            for search in [
                SuperresAutoSearchType::All,
                SuperresAutoSearchType::Dual,
                SuperresAutoSearchType::Solo,
            ] {
                let differs = superres_denom_auto_key(q, screen, search, 12, 13)
                    != superres_denom_auto_key(q, screen, search, 12, 14);
                assert_eq!(auto_key_reads_energy(q, screen, search), differs);
            }
        }
    }
}
