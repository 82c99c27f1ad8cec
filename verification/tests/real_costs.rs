//! Layout of distributions.

use aom_encode::real_costs::{
    flatten_groups, flatten_rows, partition_cdf_rows, repack_intra_ext_tx_cdf, zero_cdf_row,
};

#[test]
fn rows_read_back() {
    let mut rows = [[0u16; 11]; 20];
    for (i, row) in rows.iter_mut().enumerate() {
        for (k, v) in row.iter_mut().enumerate() {
            *v = (100 * i + k) as u16;
        }
    }
    let flat = flatten_rows(&rows);
    assert_eq!(flat.len(), 220);
    assert_eq!(flat[3 * 11 + 7], 307);
    assert_eq!(partition_cdf_rows(&flat), rows);
}

#[test]
fn groups_are_laid_out_row_by_row() {
    let groups = [[[1u16, 2], [3, 4], [5, 6]], [[7, 8], [9, 10], [11, 12]]];
    assert_eq!(flatten_groups(&groups), (1..=12).collect::<Vec<u16>>());
    assert_eq!(zero_cdf_row(3), vec![0; 3]);
}

#[test]
fn sets_of_transform_types_in_rows_of_one_length() {
    let mut first = [[[0u16; 8]; 13]; 4];
    let mut second = [[[0u16; 6]; 13]; 4];
    first[2][5] = [1, 2, 3, 4, 5, 6, 7, 8];
    second[3][12] = [11, 12, 13, 14, 15, 16];
    let out = repack_intra_ext_tx_cdf(&first, &second);
    assert_eq!(out.len(), 3 * 4 * 13 * 17);
    let base = ((4 + 2) * 13 + 5) * 17;
    assert_eq!(&out[base..base + 9], &[1, 2, 3, 4, 5, 6, 7, 8, 0]);
    let base = ((8 + 3) * 13 + 12) * 17;
    assert_eq!(&out[base..base + 7], &[11, 12, 13, 14, 15, 16, 0]);
    assert!(out[..4 * 13 * 17].iter().all(|&v| v == 0));
}
