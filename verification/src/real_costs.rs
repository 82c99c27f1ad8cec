//! Layout of the cumulative distributions from which costs are derived.
//!
//! Cost tables are filled from flat rows of one length. A frame's context
//! holds its distributions as nested arrays, and those of transform types in
//! rows of different lengths.

use vstd::prelude::*;

verus! {

/// Sets of transform types of a block predicted within a frame.
pub const EXT_TX_SETS_INTRA: usize = 3;

/// Square transform sizes that have a choice of types.
pub const EXT_TX_SIZES: usize = 4;

pub const INTRA_MODES: usize = 13;

pub const TX_TYPES: usize = 16;

/// A row of zeros: its first entry ends it.
pub fn zero_cdf_row(n: usize) -> (r: Vec<u16>)
    ensures
        r.len() == n,
        forall|k: int| 0 <= k < n ==> #[trigger] r[k] == 0,
{
    vec![0u16; n]
}

/// The first `n` rows, one after the other.
pub open spec fn flat<const N: usize>(rows: Seq<[u16; N]>, n: int) -> Seq<u16>
    decreases n,
{
    if n <= 0 {
        Seq::empty()
    } else {
        flat(rows, n - 1) + rows[n - 1]@
    }
}

/// Entry `k` of row `i` lies at `i * N + k`.
pub proof fn law_flat_keeps_entries<const N: usize>(rows: Seq<[u16; N]>, n: int, i: int, k: int)
    requires
        0 <= i < n <= rows.len(),
        0 <= k < N,
    ensures
        flat(rows, n).len() == n * N,
        0 <= i * N + k < n * N,
        flat(rows, n)[i * N + k] == rows[i][k],
    decreases n,
{
    lemma_flat_len(rows, n);
    assert(0 <= i * N && i * N + N <= n * N && n * N == (n - 1) * N + N) by (nonlinear_arith)
        requires
            0 <= i < n,
            0 <= N,
    ;
    lemma_flat_len(rows, n - 1);
    if i < n - 1 {
        assert(i * N + N <= (n - 1) * N) by (nonlinear_arith)
            requires
                i < n - 1,
                0 <= N,
        ;
        law_flat_keeps_entries(rows, n - 1, i, k);
    }
}

proof fn lemma_flat_len<const N: usize>(rows: Seq<[u16; N]>, n: int)
    requires
        0 <= n <= rows.len(),
    ensures
        flat(rows, n).len() == n * N,
    decreases n,
{
    if n > 0 {
        lemma_flat_len(rows, n - 1);
        assert(n * N == (n - 1) * N + N) by (nonlinear_arith);
    } else {
        assert(0 * N == 0) by (nonlinear_arith);
    }
}

/// Append a row.
fn append_row<const N: usize>(out: &mut Vec<u16>, row: &[u16; N])
    ensures
        final(out)@ == old(out)@ + row@,
{
    for k in 0..N
        invariant
            out@ == old(out)@ + row@.take(k as int),
    {
        assert(row@.take(k + 1) == row@.take(k as int).push(row[k as int]));
        out.push(row[k]);
    }
    assert(row@.take(N as int) == row@);
}

/// Rows, one after the other.
pub fn flatten_rows<const N: usize>(rows: &[[u16; N]]) -> (r: Vec<u16>)
    ensures
        r@ == flat(rows@, rows.len() as int),
{
    let mut out: Vec<u16> = Vec::new();
    for i in 0..rows.len()
        invariant
            out@ == flat(rows@, i as int),
    {
        append_row(&mut out, &rows[i]);
    }
    out
}

/// The rows of the first `n` groups, one after the other.
pub open spec fn flat_groups<const N: usize, const M: usize>(
    groups: Seq<[[u16; N]; M]>,
    n: int,
) -> Seq<u16>
    decreases n,
{
    if n <= 0 {
        Seq::empty()
    } else {
        flat_groups(groups, n - 1) + flat(groups[n - 1]@, M as int)
    }
}

/// Groups of rows, one row after the other.
pub fn flatten_groups<const N: usize, const M: usize>(groups: &[[[u16; N]; M]]) -> (r: Vec<u16>)
    ensures
        r@ == flat_groups(groups@, groups.len() as int),
{
    let mut out: Vec<u16> = Vec::new();
    for i in 0..groups.len()
        invariant
            out@ == flat_groups(groups@, i as int),
    {
        let ghost before = out@;
        for j in 0..M
            invariant
                i < groups.len(),
                out@ == before + flat(groups[i as int]@, j as int),
        {
            append_row(&mut out, &groups[i][j]);
            assert(out@ == before + (flat(groups[i as int]@, j as int) + groups[i as int][j as int]@));
        }
    }
    out
}

/// The rows of the partition contexts in a flat list.
pub fn partition_cdf_rows(cdf: &[u16]) -> (r: [[u16; 11]; 20])
    requires
        cdf.len() >= 220,
    ensures
        forall|ctx: int, k: int|
            0 <= ctx < 20 && 0 <= k < 11 ==> #[trigger] r[ctx][k] == cdf[ctx * 11 + k],
{
    let mut rows: [[u16; 11]; 20] = [[0u16; 11]; 20];
    for ctx in 0usize..20
        invariant
            cdf.len() >= 220,
            forall|c: int, k: int|
                0 <= c < ctx && 0 <= k < 11 ==> #[trigger] rows[c][k] == cdf[c * 11 + k],
    {
        for k in 0usize..11
            invariant
                ctx < 20,
                cdf.len() >= 220,
                forall|c: int, j: int|
                    0 <= c < ctx && 0 <= j < 11 ==> #[trigger] rows[c][j] == cdf[c * 11 + j],
                forall|j: int| 0 <= j < k ==> #[trigger] rows[ctx as int][j] == cdf[ctx * 11 + j],
        {
            rows[ctx][k] = cdf[ctx * 11 + k];
        }
    }
    rows
}

/// Rows that were laid out flat read back as they were.
pub proof fn law_partition_rows_read_back(rows: Seq<[u16; 11]>, ctx: int, k: int)
    requires
        rows.len() == 20,
        0 <= ctx < 20,
        0 <= k < 11,
    ensures
        flat(rows, 20).len() == 220,
        flat(rows, 20)[ctx * 11 + k] == rows[ctx][k],
{
    law_flat_keeps_entries(rows, 20, ctx, k);
}

/// Where the row of a set, a size and a mode starts among rows of 17.
pub open spec fn ext_tx_row(set: int, size: int, mode: int) -> int {
    ((set * EXT_TX_SIZES + size) * INTRA_MODES + mode) * (TX_TYPES + 1)
}

/// Distribution `k` of a transform type for a block predicted within a frame:
/// set 1 has rows of 8, set 2 rows of 6, set 0 codes nothing. What is left of
/// a row is zero.
pub open spec fn ext_tx_entry(
    set1: [[[u16; 8]; 13]; 4],
    set2: [[[u16; 6]; 13]; 4],
    set: int,
    size: int,
    mode: int,
    k: int,
) -> u16 {
    if set == 1 && k < 8 {
        set1[size][mode][k]
    } else if set == 2 && k < 6 {
        set2[size][mode][k]
    } else {
        0
    }
}

/// The distributions of transform types in rows of 17: see [`ext_tx_entry`].
pub fn repack_intra_ext_tx_cdf(
    ext_tx_1ddct: &[[[u16; 8]; 13]; 4],
    ext_tx_dtt4: &[[[u16; 6]; 13]; 4],
) -> (r: Vec<u16>)
    ensures
        r.len() == ext_tx_row(EXT_TX_SETS_INTRA as int, 0, 0),
        forall|set: int, size: int, mode: int, k: int|
            0 <= set < 3 && 0 <= size < 4 && 0 <= mode < 13 && 0 <= k < 17
                ==> r[#[trigger] ext_tx_row(set, size, mode) + k] == #[trigger] ext_tx_entry(
                *ext_tx_1ddct,
                *ext_tx_dtt4,
                set,
                size,
                mode,
                k,
            ),
{
    let mut out: Vec<u16> = Vec::new();
    for row in 0usize..156
        invariant
            out.len() == row * 17,
            forall|p: int|
                0 <= p < row * 17 ==> #[trigger] out[p] == ext_tx_entry(
                    *ext_tx_1ddct,
                    *ext_tx_dtt4,
                    p / 884,
                    (p / 221) % 4,
                    (p / 17) % 13,
                    p % 17,
                ),
    {
        let set: usize = row / 52;
        let size: usize = (row / 13) % 4;
        let mode: usize = row % 13;
        for k in 0usize..17
            invariant
                row < 156,
                set == row / 52,
                size == (row / 13) % 4,
                mode == row % 13,
                out.len() == row * 17 + k,
                forall|p: int|
                    0 <= p < row * 17 + k ==> #[trigger] out[p] == ext_tx_entry(
                        *ext_tx_1ddct,
                        *ext_tx_dtt4,
                        p / 884,
                        (p / 221) % 4,
                        (p / 17) % 13,
                        p % 17,
                    ),
        {
            let ghost p = row * 17 + k;
            assert(p / 17 == row && p % 17 == k && p / 221 == row / 13 && p / 884 == row / 52);
            let entry: u16 = if set == 1 && k < 8 {
                ext_tx_1ddct[size][mode][k]
            } else if set == 2 && k < 6 {
                ext_tx_dtt4[size][mode][k]
            } else {
                0
            };
            out.push(entry);
        }
    }
    assert forall|set: int, size: int, mode: int, k: int|
        0 <= set < 3 && 0 <= size < 4 && 0 <= mode < 13 && 0 <= k < 17 implies out[
    #[trigger] ext_tx_row(set, size, mode) + k] == #[trigger] ext_tx_entry(
        *ext_tx_1ddct,
        *ext_tx_dtt4,
        set,
        size,
        mode,
        k,
    ) by {
        let p = ext_tx_row(set, size, mode) + k;
        assert(p == 884 * set + 221 * size + 17 * mode + k);
        assert(p / 884 == set && (p / 221) % 4 == size && (p / 17) % 13 == mode && p % 17 == k);
    }
    out
}

/// No two distributions share a place, and the rows fill the table without a
/// gap: the row of a mode is followed by that of the next.
pub proof fn law_ext_tx_rows_are_apart(
    set: int,
    size: int,
    mode: int,
    k: int,
    other: (int, int, int, int),
)
    requires
        0 <= size < 4,
        0 <= mode < 13,
        0 <= k < 17,
        0 <= other.1 < 4,
        0 <= other.2 < 13,
        0 <= other.3 < 17,
    ensures
        ext_tx_row(set, size, mode) + k == ext_tx_row(other.0, other.1, other.2) + other.3 <==> (
        set,
        size,
        mode,
        k,
    ) == other,
        ext_tx_row(0, 0, 0) == 0,
        mode < 12 ==> ext_tx_row(set, size, mode + 1) == ext_tx_row(set, size, mode) + 17,
        size < 3 ==> ext_tx_row(set, size + 1, 0) == ext_tx_row(set, size, 12) + 17,
        ext_tx_row(set + 1, 0, 0) == ext_tx_row(set, 3, 12) + 17,
{
    assert(ext_tx_row(set, size, mode) == 884 * set + 221 * size + 17 * mode);
    assert(ext_tx_row(other.0, other.1, other.2) == 884 * other.0 + 221 * other.1 + 17 * other.2);
}

/// Entry `k` of row `j` of group `i` lies behind the whole groups before it and
/// the rows before it in its own.
pub proof fn law_groups_keep_entries<const N: usize, const M: usize>(
    groups: Seq<[[u16; N]; M]>,
    n: int,
    i: int,
    j: int,
    k: int,
)
    requires
        0 <= i < n <= groups.len(),
        0 <= j < M,
        0 <= k < N,
    ensures
        flat_groups(groups, n).len() == n * (M * N),
        0 <= i * (M * N) + j * N + k < n * (M * N),
        flat_groups(groups, n)[i * (M * N) + j * N + k] == groups[i][j][k],
    decreases n,
{
    let g = M * N;
    law_flat_keeps_entries(groups[n - 1]@, M as int, j, k);
    let at = j * N + k;
    assert(0 <= i * g && i * g + g <= n * g && n * g == (n - 1) * g + g) by (nonlinear_arith)
        requires
            0 <= i < n,
            0 <= g,
    ;
    if n > 1 {
        law_groups_keep_entries(
            groups,
            n - 1,
            if i < n - 1 {
                i
            } else {
                0
            },
            j,
            k,
        );
    } else {
        assert(0 * g == 0) by (nonlinear_arith);
        assert(flat_groups(groups, 0) == Seq::<u16>::empty());
    }
    if i < n - 1 {
        assert(i * g + g <= (n - 1) * g) by (nonlinear_arith)
            requires
                i < n - 1,
                0 <= g,
        ;
    }
}

} // verus!
