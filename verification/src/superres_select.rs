//! Choosing the superres denominator of a key frame.
//!
//! The energy of a frame's horizontal frequencies is summed over 16x4 blocks
//! of transform coefficients; what is compared in floating point enters as
//! flags.

use vstd::prelude::*;

use crate::arith::pow2i;

verus! {

/// Denominator of a frame at full width.
pub const SCALE_NUMERATOR: u8 = 8;

/// First seed of the random mode.
pub const SUPERRES_RANDOM_SEED_INIT: u32 = 34567;

/// The next state of the random generator.
pub open spec fn lcg_after(state: u32) -> u32 {
    ((state as int * 1103515245 + 12345) % 0x1_0000_0000) as u32
}

fn lcg_next(state: &mut u32) -> (r: u32)
    ensures
        r == lcg_after(*old(state)),
        *final(state) == r,
{
    let next: u64 = (*state as u64 * 1103515245 + 12345) % 0x1_0000_0000;
    *state = next as u32;
    *state
}

/// A 15-bit number from the next state of the random generator.
pub open spec fn rand15(state: u32) -> int {
    (lcg_after(state) as int / 65536) % 32768
}

fn lcg_rand16(state: &mut u32) -> (r: u32)
    ensures
        r == rand15(*old(state)),
        *final(state) == lcg_after(*old(state)),
{
    (lcg_next(state) / 65536) % 32768
}

/// A random denominator; the seed advances.
#[must_use]
pub fn superres_denom_random(seed: &mut u32) -> (r: u8)
    ensures
        r == rand15(*old(seed)) % 9 + 8,
        *final(seed) == lcg_after(*old(seed)),
        8 <= r <= 16,
{
    (lcg_rand16(seed) % 9 + 8) as u8
}

/// The denominator of the first frame in random mode.
#[must_use]
pub fn superres_denom_random_first_frame() -> (r: u8)
    ensures
        r == 11,
{
    let mut seed: u32 = SUPERRES_RANDOM_SEED_INIT;
    superres_denom_random(&mut seed)
}

/// Number of 16x4 blocks along a side: those that leave a rest.
pub open spec fn blocks_along(length: int, size: int) -> int {
    if length <= size {
        0
    } else {
        (length - size + size - 1) / size
    }
}

/// The 16x4 block in block row `i` and block column `j`, row by row.
pub open spec fn freq_block(src: Seq<u16>, stride: int, i: int, j: int) -> Seq<i16> {
    Seq::new(64, |k: int| src[(4 * i + k / 16) * stride + 16 * j + k % 16] as i16)
}

/// The samples that the blocks cover are in the buffer, and fit the transform.
pub open spec fn freq_plane_fits(src: Seq<u16>, width: int, height: int, stride: int) -> bool {
    &&& 0 <= width <= 0x7fff_ffff
    &&& 0 <= height <= 0x7fff_ffff
    &&& forall|y: int, x: int|
        0 <= y < height && 0 <= x < width ==> {
            let k = #[trigger] crate::temporal_filter::cell_index(stride, y, x);
            0 <= k < src.len() && src[k] <= 0x7fff
        }
}

fn load_freq_block(
    src: &[u16],
    width: usize,
    height: usize,
    stride: usize,
    i: usize,
    j: usize,
) -> (r: [i16; 64])
    requires
        freq_plane_fits(src@, width as int, height as int, stride as int),
        4 * i + 4 <= height,
        16 * j + 16 <= width,
    ensures
        r@ == freq_block(src@, stride as int, i as int, j as int),
{
    let mut blk: [i16; 64] = [0; 64];
    let ghost st = stride as int;
    for y in 0usize..4
        invariant
            st == stride,
            freq_plane_fits(src@, width as int, height as int, st),
            4 * i + 4 <= height,
            16 * j + 16 <= width,
            forall|k: int|
                0 <= k < 16 * y ==> #[trigger] blk@[k] == freq_block(src@, st, i as int, j as int)[k],
    {
        for x in 0usize..16
            invariant
                st == stride,
                y < 4,
                freq_plane_fits(src@, width as int, height as int, st),
                4 * i + 4 <= height,
                16 * j + 16 <= width,
                forall|k: int|
                    0 <= k < 16 * y + x ==> #[trigger] blk@[k] == freq_block(
                        src@,
                        st,
                        i as int,
                        j as int,
                    )[k],
        {
            let ghost v = 4 * i + y;
            let ghost u = 16 * j + x;
            let ghost k = crate::temporal_filter::cell_index(st, v, u);
            assert(0 <= k < src.len());
            assert(0 <= v * st) by (nonlinear_arith)
                requires
                    0 <= v,
                    0 <= st,
            ;
            let sample: u16 = src[(4 * i + y) * stride + (16 * j + x)];
            let ghost n = 16 * y + x;
            assert(n / 16 == y && n % 16 == x);
            blk[16 * y + x] = sample as i16;
            assert(blk@[n] == freq_block(src@, st, i as int, j as int)[n]);
        }
    }
    assert(blk@ =~= freq_block(src@, stride as int, i as int, j as int));
    blk
}

/// The blocks of a plane whose frequencies are analysed, row by row. The last
/// row and column of blocks are left out where nothing would remain behind
/// them.
pub fn hor_freq_blocks(src: &[u16], width: usize, height: usize, stride: usize) -> (r: Vec<
    Vec<[i16; 64]>,
>)
    requires
        freq_plane_fits(src@, width as int, height as int, stride as int),
    ensures
        r.len() == blocks_along(height as int, 4),
        forall|i: int|
            0 <= i < r.len() ==> (#[trigger] r[i]).len() == blocks_along(width as int, 16),
        forall|i: int, j: int|
            0 <= i < r.len() && 0 <= j < blocks_along(width as int, 16) ==> (#[trigger] r[i][j])@
                == freq_block(src@, stride as int, i, j),
{
    let rows: usize = if height <= 4 {
        0
    } else {
        (height - 1) / 4
    };
    let cols: usize = if width <= 16 {
        0
    } else {
        (width - 1) / 16
    };
    let mut out: Vec<Vec<[i16; 64]>> = Vec::new();
    for i in 0..rows
        invariant
            freq_plane_fits(src@, width as int, height as int, stride as int),
            rows == blocks_along(height as int, 4),
            cols == blocks_along(width as int, 16),
            out.len() == i,
            forall|v: int| 0 <= v < i ==> (#[trigger] out[v]).len() == cols,
            forall|v: int, u: int|
                0 <= v < i && 0 <= u < cols ==> (#[trigger] out[v][u])@ == freq_block(
                    src@,
                    stride as int,
                    v,
                    u,
                ),
    {
        let mut row: Vec<[i16; 64]> = Vec::new();
        for j in 0..cols
            invariant
                freq_plane_fits(src@, width as int, height as int, stride as int),
                rows == blocks_along(height as int, 4),
                cols == blocks_along(width as int, 16),
                i < rows,
                row.len() == j,
                forall|u: int|
                    0 <= u < j ==> (#[trigger] row[u])@ == freq_block(
                        src@,
                        stride as int,
                        i as int,
                        u,
                    ),
        {
            row.push(load_freq_block(src, width, height, stride, i, j));
        }
        out.push(row);
    }
    out
}

/// `v / 2^n`, to nearest.
pub open spec fn round_shift_wide(v: int, n: int) -> int {
    (v + pow2i(n - 1)) / pow2i(n)
}

/// Energy of frequency `k` of a block.
pub open spec fn block_energy(coeff: Seq<i32>, k: int) -> int {
    coeff[k] * coeff[k] + coeff[k + 16] * coeff[k + 16] + coeff[k + 32] * coeff[k + 32] + coeff[k
        + 48] * coeff[k + 48]
}

/// Energy of frequency `k` over the first `n` blocks, in units of the samples
/// at eight bits.
pub open spec fn total_energy(coeffs: Seq<[i32; 64]>, bd: int, k: int, n: int) -> int
    decreases n,
{
    if n <= 0 {
        0
    } else {
        total_energy(coeffs, bd, k, n - 1) + round_shift_wide(
            block_energy(coeffs[n - 1]@, k),
            2 + 2 * (bd - 8),
        )
    }
}

/// Bound on a coefficient.
pub const MAX_FREQ_COEFF: i32 = 0x10_0000;

proof fn lemma_energy(coeff: Seq<i32>, k: int)
    requires
        coeff.len() == 64,
        1 <= k < 16,
        forall|i: int| 0 <= i < 64 ==> -MAX_FREQ_COEFF <= #[trigger] coeff[i] <= MAX_FREQ_COEFF,
    ensures
        0 <= coeff[k] * coeff[k] <= 0x100_0000_0000,
        0 <= coeff[k + 16] * coeff[k + 16] <= 0x100_0000_0000,
        0 <= coeff[k + 32] * coeff[k + 32] <= 0x100_0000_0000,
        0 <= coeff[k + 48] * coeff[k + 48] <= 0x100_0000_0000,
{
    lemma_square(coeff[k] as int);
    lemma_square(coeff[k + 16] as int);
    lemma_square(coeff[k + 32] as int);
    lemma_square(coeff[k + 48] as int);
}

proof fn lemma_square(c: int)
    requires
        -0x10_0000 <= c <= 0x10_0000,
    ensures
        0 <= c * c <= 0x100_0000_0000,
{
    assert(0 <= c * c <= 0x100_0000_0000) by (nonlinear_arith)
        requires
            -0x10_0000 <= c <= 0x10_0000,
    ;
}

/// Energy of each horizontal frequency over the coefficients of all blocks;
/// that of frequency 0 is left at 0.
#[verifier::spinoff_prover]
pub fn hor_freq_energy(coeffs: &Vec<[i32; 64]>, bd: u8) -> (r: [u64; 16])
    requires
        8 <= bd <= 12,
        coeffs.len() <= 0x40_0000,
        forall|b: int, i: int|
            0 <= b < coeffs.len() && 0 <= i < 64 ==> -MAX_FREQ_COEFF <= #[trigger] coeffs[b][i]
                <= MAX_FREQ_COEFF,
    ensures
        r[0] == 0,
        forall|k: int|
            1 <= k < 16 ==> #[trigger] r[k] == total_energy(
                coeffs@,
                bd as int,
                k,
                coeffs.len() as int,
            ),
{
    let shift: u32 = 2 + 2 * (bd as u32 - 8);
    let mut energy: [u64; 16] = [0; 16];
    let div: u64 = crate::tpl_model::pow2_of(shift as u8) as u64;
    let ghost s = coeffs@;
    for b in 0..coeffs.len()
        invariant
            8 <= bd <= 12,
            s == coeffs@,
            coeffs.len() <= 0x40_0000,
            shift == 2 + 2 * (bd - 8),
            div == pow2i(shift as int),
            div >= 1,
            forall|b: int, i: int|
                0 <= b < coeffs.len() && 0 <= i < 64 ==> -MAX_FREQ_COEFF <= #[trigger] coeffs[b][i]
                    <= MAX_FREQ_COEFF,
            energy[0] == 0,
            forall|k: int|
                1 <= k < 16 ==> #[trigger] energy[k] == total_energy(s, bd as int, k, b as int),
            forall|k: int| 0 <= k < 16 ==> #[trigger] energy[k] <= b * 0x100_0000_0080,
    {
        let ghost e0 = energy@;
        let coeff: &[i32; 64] = &coeffs[b];
        proof {
            assert forall|i: int| 0 <= i < 64 implies -MAX_FREQ_COEFF <= #[trigger] coeff@[i]
                <= MAX_FREQ_COEFF by {
                assert(coeff@[i] == coeffs[b as int][i]);
            }
        }
        for k in 1usize..16
            invariant
                8 <= bd <= 12,
                s == coeffs@,
                b < coeffs.len(),
                coeffs.len() <= 0x40_0000,
                *coeff == s[b as int],
                shift == 2 + 2 * (bd - 8),
                div == pow2i(shift as int),
                div >= 1,
                forall|i: int|
                    0 <= i < 64 ==> -MAX_FREQ_COEFF <= #[trigger] coeff@[i] <= MAX_FREQ_COEFF,
                energy[0] == 0,
                e0.len() == 16,
                forall|j: int|
                    0 <= j < 16 ==> #[trigger] e0[j] <= b * 0x100_0000_0080,
                forall|j: int|
                    1 <= j < 16 ==> #[trigger] e0[j] == total_energy(s, bd as int, j, b as int),
                forall|j: int|
                    1 <= j < k ==> #[trigger] energy@[j] == total_energy(
                        s,
                        bd as int,
                        j,
                        b as int + 1,
                    ),
                forall|j: int| k <= j < 16 ==> #[trigger] energy@[j] == e0[j],
                forall|j: int|
                    0 <= j < 16 ==> #[trigger] energy@[j] <= (b + 1) * 0x100_0000_0080,
        {
            proof {
                lemma_energy(coeff@, k as int);
            }
            let c0: i64 = coeff[k] as i64;
            let c1: i64 = coeff[k + 16] as i64;
            let c2: i64 = coeff[k + 32] as i64;
            let c3: i64 = coeff[k + 48] as i64;
            let this: u64 = (c0 * c0 + c1 * c1 + c2 * c2 + c3 * c3) as u64;
            assert(this == block_energy(coeff@, k as int));
            proof {
                assert(div == 2 * pow2i(shift as int - 1));
                assert(div <= 0x400) by {
                    crate::arith::lemma_pow2i_mono(shift as int, 10);
                    reveal_with_fuel(pow2i, 11);
                }
                let (a, d) = (this + pow2i(shift as int - 1), div as int);
                assert(0 <= a / d <= a) by (nonlinear_arith)
                    requires
                        a >= 0,
                        d >= 1,
                ;
                assert(a / d <= 0x100_0000_0080) by (nonlinear_arith)
                    requires
                        0 <= a <= 0x400_0000_0000 + 0x200,
                        d >= 4,
                ;
                assert((b + 1) * 0x100_0000_0080 == b * 0x100_0000_0080 + 0x100_0000_0080)
                    by (nonlinear_arith);
            }
            let add: u64 = (this + div / 2) / div;
            energy[k] = energy[k] + add;
        }
    }
    energy
}

/// The denominator for a frame: 8 for one whose eight highest frequencies all
/// but the last matter, up to 16. `exceeds` tells for each frequency whether
/// the energy from it on is above the threshold.
pub open spec fn denom_for(exceeds: Seq<bool>, k: int) -> int
    decreases k,
{
    if k <= 8 || exceeds[k - 1] {
        24 - k
    } else {
        denom_for(exceeds, k - 1)
    }
}

/// The denominator that drops the highest frequencies whose cumulated energy
/// does not exceed the threshold.
#[must_use]
pub fn superres_denom_from_energy(exceeds: &[bool; 16]) -> (r: u8)
    ensures
        r == denom_for(exceeds@, 16),
        8 <= r <= 16,
{
    let mut k: usize = 16;
    while k > 8
        invariant_except_break
            8 <= k <= 16,
            denom_for(exceeds@, 16) == denom_for(exceeds@, k as int),
        ensures
            8 <= k <= 16,
            denom_for(exceeds@, 16) == 24 - k,
        decreases k,
    {
        if exceeds[k - 1] {
            break;
        }
        k = k - 1;
    }
    (24 - k) as u8
}

/// The denominator 8 comes exactly where the highest frequency exceeds the
/// threshold; in general the first that does from the top decides.
pub proof fn law_denom_is_first_excess(exceeds: Seq<bool>, k: int)
    requires
        8 <= k <= 16,
        exceeds.len() == 16,
    ensures
        ({
            let top = 24 - denom_for(exceeds, k);
            &&& 8 <= top <= k
            &&& top > 8 ==> exceeds[top - 1]
            &&& forall|i: int| top <= i < k ==> !#[trigger] exceeds[i]
        }),
    decreases k,
{
    if k > 8 && !exceeds[k - 1] {
        law_denom_is_first_excess(exceeds, k - 1);
    }
}

/// Whether a key frame in threshold mode is to be analysed for its energy.
#[must_use]
pub fn qthresh_key_reads_energy(
    q: i32,
    kf_qthresh_qindex: i32,
    allow_screen_content_tools: bool,
) -> (r: bool)
    ensures
        r == (!allow_screen_content_tools && q > kf_qthresh_qindex),
{
    !allow_screen_content_tools && q > kf_qthresh_qindex
}

/// The denominator of a key frame in threshold mode: that of the energy
/// analysis, unless the content is a screen's or the quantizer index is at or
/// below the threshold. `from_energy` is read only where the frame is analysed.
#[must_use]
pub fn superres_denom_qthresh_key(
    q: i32,
    kf_qthresh_qindex: i32,
    allow_screen_content_tools: bool,
    from_energy: u8,
) -> (r: u8)
    ensures
        r == if allow_screen_content_tools || q <= kf_qthresh_qindex {
            SCALE_NUMERATOR
        } else {
            from_energy
        },
{
    if allow_screen_content_tools {
        return SCALE_NUMERATOR;
    }
    if q <= kf_qthresh_qindex {
        return SCALE_NUMERATOR;
    }
    from_energy
}

/// How the automatic mode searches.
#[derive(Clone, Copy, PartialEq, Eq, Debug, Structural)]
pub enum SuperresAutoSearchType {
    /// All ratios, starting from the prescribed one.
    All,
    /// Full width and the ratio from the energy.
    Dual,
    /// The ratio from the energy only.
    Solo,
}

/// Whether a key frame in automatic mode is to be analysed for its energy.
#[must_use]
pub fn auto_key_reads_energy(
    q: i32,
    allow_screen_content_tools: bool,
    search_type: SuperresAutoSearchType,
) -> (r: bool)
    ensures
        r == (!allow_screen_content_tools && match search_type {
            SuperresAutoSearchType::All => false,
            SuperresAutoSearchType::Dual => q > 0,
            SuperresAutoSearchType::Solo => q > 128,
        }),
{
    !allow_screen_content_tools && match search_type {
        SuperresAutoSearchType::All => false,
        SuperresAutoSearchType::Dual => q > 0,
        SuperresAutoSearchType::Solo => q > 128,
    }
}

/// The denominator of a key frame in automatic mode. `from_energy` is read only
/// where the frame is analysed.
#[must_use]
pub fn superres_denom_auto_key(
    q: i32,
    allow_screen_content_tools: bool,
    search_type: SuperresAutoSearchType,
    kf_scale_denominator: u8,
    from_energy: u8,
) -> (r: u8)
    ensures
        r == if allow_screen_content_tools || q <= (if search_type == SuperresAutoSearchType::Solo {
            128int
        } else {
            0
        }) {
            SCALE_NUMERATOR
        } else if search_type == SuperresAutoSearchType::All {
            kf_scale_denominator
        } else {
            from_energy
        },
{
    if allow_screen_content_tools {
        return SCALE_NUMERATOR;
    }
    let qthresh: i32 = if search_type == SuperresAutoSearchType::Solo {
        128
    } else {
        0
    };
    if q <= qthresh {
        return SCALE_NUMERATOR;
    }
    if search_type == SuperresAutoSearchType::All {
        kf_scale_denominator
    } else {
        from_energy
    }
}

/// The blocks along a side are as many as leave a rest: one more would reach
/// the end or pass it.
pub proof fn law_blocks_leave_a_rest(length: int, size: int)
    requires
        1 <= size,
        1 <= length,
    ensures
        0 <= blocks_along(length, size),
        blocks_along(length, size) * size < length <= (blocks_along(length, size) + 1) * size,
{
    let n = blocks_along(length, size);
    if length > size {
        assert(1 <= n && n * size < length <= (n + 1) * size) by (nonlinear_arith)
            requires
                n == (length - size + size - 1) / size,
                length > size,
                size >= 1,
        ;
    } else {
        assert(n * size == 0 && (n + 1) * size == size) by (nonlinear_arith)
            requires
                n == 0,
        ;
    }
}

/// The blocks tile the plane: a sample is in the block of its place, in the
/// row and column that the blocks before it leave.
pub proof fn law_block_holds_its_samples(src: Seq<u16>, stride: int, y: int, x: int)
    requires
        0 <= y,
        0 <= x,
        src[y * stride + x] <= 0x7fff,
    ensures
        freq_block(src, stride, y / 4, x / 16)[(y % 4) * 16 + x % 16] == src[y * stride + x],
{
    let k = (y % 4) * 16 + x % 16;
    assert(k / 16 == y % 4 && k % 16 == x % 16);
    assert(4 * (y / 4) + y % 4 == y);
    assert(16 * (x / 16) + x % 16 == x);
}

/// The energy of a frequency is the same at every depth: coefficients that grow
/// with the samples, four times at ten bits and sixteen at twelve, have it too.
pub proof fn law_depths_have_the_same_energy(
    s: Seq<[i32; 64]>,
    t: Seq<[i32; 64]>,
    bd: int,
    k: int,
    n: int,
)
    requires
        bd == 10 || bd == 12,
        0 <= k < 16,
        0 <= n <= s.len(),
        n <= t.len(),
        forall|b: int, i: int|
            0 <= b < n && 0 <= i < 64 ==> #[trigger] t[b][i] == s[b][i] * (if bd == 10 {
                4int
            } else {
                16
            }),
    ensures
        total_energy(t, bd, k, n) == total_energy(s, 8, k, n),
    decreases n,
{
    if n > 0 {
        law_depths_have_the_same_energy(s, t, bd, k, n - 1);
        let (a, b) = (s[n - 1]@, t[n - 1]@);
        let m: int = if bd == 10 { 4 } else { 16 };
        assert(t[n - 1][k] == s[n - 1][k] * m);
        assert(t[n - 1][k + 16] == s[n - 1][k + 16] * m);
        assert(t[n - 1][k + 32] == s[n - 1][k + 32] * m);
        assert(t[n - 1][k + 48] == s[n - 1][k + 48] * m);
        lemma_scaled_square(a[k] as int, m);
        lemma_scaled_square(a[k + 16] as int, m);
        lemma_scaled_square(a[k + 32] as int, m);
        lemma_scaled_square(a[k + 48] as int, m);
        assert(pow2i(1) == 2 && pow2i(2) == 4 && pow2i(5) == 32 && pow2i(6) == 64 && pow2i(9) == 512
            && pow2i(10) == 1024) by {
            reveal_with_fuel(pow2i, 11);
        }
        let e = block_energy(a, k);
        if bd == 10 {
            assert(block_energy(b, k) == 16 * e);
            assert((16 * e + 32) / 64 == (e + 2) / 4);
        } else {
            assert(block_energy(b, k) == 256 * e);
            assert((256 * e + 512) / 1024 == (e + 2) / 4);
        }
    }
}

proof fn lemma_scaled_square(c: int, m: int)
    requires
        m == 4 || m == 16,
    ensures
        (c * m) * (c * m) == (if m == 4 { 16int } else { 256 }) * (c * c),
{
    if m == 4 {
        assert((c * 4) * (c * 4) == 16 * (c * c)) by (nonlinear_arith);
    } else {
        assert((c * 16) * (c * 16) == 256 * (c * c)) by (nonlinear_arith);
    }
}

/// The energy of one more block is a quarter of its squares, to nearest, at
/// eight bits; the sign of a coefficient does not matter, and frequencies do
/// not mix.
pub proof fn law_block_adds_a_quarter_of_its_squares(
    coeffs: Seq<[i32; 64]>,
    k: int,
    n: int,
    c: int,
    row: int,
)
    requires
        0 < n <= coeffs.len(),
        0 <= k < 16,
        0 <= row < 4,
        coeffs[n - 1][16 * row + k] == c || coeffs[n - 1][16 * row + k] == -c,
        forall|i: int|
            0 <= i < 64 && i % 16 == k && i != 16 * row + k ==> #[trigger] coeffs[n - 1][i] == 0,
    ensures
        ({
            let more = total_energy(coeffs, 8, k, n) - total_energy(coeffs, 8, k, n - 1);
            c * c - 2 <= 4 * more <= c * c + 2
        }),
{
    let a = coeffs[n - 1];
    assert(pow2i(1) == 2 && pow2i(2) == 4) by {
        reveal_with_fuel(pow2i, 3);
    }
    assert((16 * row + k) % 16 == k);
    assert(k % 16 == k && (k + 16) % 16 == k && (k + 32) % 16 == k && (k + 48) % 16 == k);
    assert((-c) * (-c) == c * c) by (nonlinear_arith);
    assert(row != 0 ==> a[k] == 0);
    assert(row != 1 ==> a[k + 16] == 0);
    assert(row != 2 ==> a[k + 32] == 0);
    assert(row != 3 ==> a[k + 48] == 0);
    assert(block_energy(a@, k) == c * c);
    let e = c * c;
    assert(round_shift_wide(e, 2) == (e + 2) / 4);
    assert(e - 2 <= 4 * ((e + 2) / 4) <= e + 2);
}

} // verus!
