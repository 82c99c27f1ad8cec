//! Resizing planes.

use aom_encode::resize::{
    coded_superres_width, has_optimized_scaler, highbd_resize_plane,
    optimized_downscale_plane_8bit, resize_plane,
};

#[test]
fn unchanged_size_is_a_copy() {
    let src: Vec<u8> = (0..40).collect();
    let mut out = vec![0u8; 40];
    resize_plane(&src, 4, 10, 10, &mut out, 4, 10, 10);
    assert_eq!(out, src);
}

#[test]
fn long_lines_are_resized() {
    // A copy has no longest line.
    let n = 300_000;
    let src: Vec<u8> = (0..n).map(|i| (i * 7 % 251) as u8).collect();
    let mut out = vec![0u8; n];
    resize_plane(&src, 1, n as i32, n as i32, &mut out, 1, n as i32, n as i32);
    assert_eq!(out, src);
    let mut out = vec![0u8; n];
    resize_plane(&src, n as i32, 1, 1, &mut out, n as i32, 1, 1);
    assert_eq!(out, src);

    // Both depths agree on a line of 131071 samples.
    let (w, w2) = (131_071, 100_000);
    let mut low = vec![0u8; w2];
    resize_plane(&src, 1, w as i32, w as i32, &mut low, 1, w2 as i32, w2 as i32);
    let src16: Vec<u16> = src.iter().map(|&v| u16::from(v)).collect();
    let mut high = vec![0u16; w2];
    highbd_resize_plane(&src16, 1, w as i32, w as i32, &mut high, 1, w2 as i32, w2 as i32, 8);
    assert!(low.iter().zip(&high).all(|(&l, &h)| u16::from(l) == h));
    let flat = vec![9u8; w];
    resize_plane(&flat, 1, w as i32, w as i32, &mut low, 1, w2 as i32, w2 as i32);
    assert!(low.iter().all(|&v| v == 9));
}

#[test]
fn flat_planes_stay_flat() {
    let src = vec![77u8; 20 * 12];
    for (h2, w2) in [(12, 20), (6, 10), (3, 5), (7, 11), (12, 10), (20, 33)] {
        let mut out = vec![0u8; (h2 * w2) as usize];
        resize_plane(&src, 12, 20, 20, &mut out, h2, w2, w2);
        assert!(out.iter().all(|&v| v == 77), "{h2}x{w2}");
    }
    let src = vec![777u16; 20 * 12];
    let mut out = vec![0u16; 7 * 11];
    highbd_resize_plane(&src, 12, 20, 20, &mut out, 7, 11, 11, 10);
    assert!(out.iter().all(|&v| v == 777));
}

#[test]
fn halving_filters_the_line() {
    let src = [0u8, 0, 0, 0, 100, 100, 100, 100];
    let mut out = [9u8; 4];
    resize_plane(&src, 1, 8, 8, &mut out, 1, 4, 4);
    assert_eq!(out, [0, 6, 94, 101]);
    let src16: Vec<u16> = src.iter().map(|&v| u16::from(v)).collect();
    let mut out16 = [9u16; 4];
    highbd_resize_plane(&src16, 1, 8, 8, &mut out16, 1, 4, 4, 10);
    assert_eq!(out16, [0, 6, 94, 101]);
}

#[test]
fn cells_between_rows_are_kept() {
    let src = vec![5u8; 8 * 2];
    let mut out = vec![1u8; 12];
    resize_plane(&src, 2, 8, 8, &mut out, 2, 4, 6);
    assert_eq!(out, vec![5, 5, 5, 5, 1, 1, 5, 5, 5, 5, 1, 1]);
}

#[test]
fn coded_width_of_a_frame() {
    assert_eq!(coded_superres_width(100, 8), 100);
    assert_eq!(coded_superres_width(100, 16), 50);
    assert_eq!(coded_superres_width(20, 16), 16);
    assert_eq!(coded_superres_width(10, 16), 10);
    assert_eq!(coded_superres_width(1920, 9), 1707);
}

#[test]
fn ratios_of_the_fast_scaler() {
    assert!(has_optimized_scaler(64, 64, 32, 32));
    assert!(has_optimized_scaler(64, 64, 16, 64));
    assert!(!has_optimized_scaler(64, 64, 15, 64));
    assert!(!has_optimized_scaler(64, 64, 48, 32));
}

#[test]
fn fast_scaler_keeps_flat_planes_and_same_sizes() {
    let flat = vec![120u8; 32 * 32];
    assert_eq!(optimized_downscale_plane_8bit(&flat, 32, 32, 16, 16), vec![120u8; 256]);
    let src: Vec<u8> = (0..32 * 32).map(|i| (i * 7 % 251) as u8).collect();
    assert_eq!(optimized_downscale_plane_8bit(&src, 32, 32, 32, 32), src);
}
