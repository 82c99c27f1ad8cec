//! Resizing planes: the source of a frame that is coded at another size.
//!
//! A line is halved as often as it can be and then interpolated; a plane is
//! resized line by line, rows first and columns after.

use vstd::prelude::*;

use crate::arith::{max_int, min_int, shr_i64};
use crate::resize_filters::{bank_tap, tap};
pub use crate::resize_smooth::{
    has_optimized_scaler,
    optimized_downscale_plane_8bit,
};

verus! {

/// Numerator of a resize ratio.
pub const SCALE_NUMERATOR: i32 = 8;

/// Taps of one half of the filter that halves lines of even length.
pub const DOWN2_SYMEVEN_HALF_FILTER: [i16; 4] = [56, 12, -3, -1];

/// Taps of one half of the filter that halves lines of odd length.
pub const DOWN2_SYMODD_HALF_FILTER: [i16; 4] = [64, 35, 0, -3];

/// A sample of either depth.
pub trait PlaneSample: Copy {
    /// The sample's value.
    spec fn level(self) -> int;

    /// The sample of a value.
    spec fn of(v: int) -> Self;

    /// A sample's value is that of its sample.
    proof fn lemma_of(v: int)
        requires
            0 <= v <= Self::top(),
        ensures
            Self::of(v).level() == v,
    ;

    proof fn lemma_level(self)
        ensures
            0 <= self.level() <= Self::top(),
            Self::of(self.level()) == self,
    ;

    /// Largest value that a sample can hold.
    spec fn top() -> int;

    fn get(self) -> (r: i32)
        ensures
            r == self.level(),
            0 <= r <= 0xffff,
    ;

    fn put(v: i32) -> (r: Self)
        requires
            0 <= v <= Self::top(),
        ensures
            r == Self::of(v as int),
    ;
}

impl PlaneSample for u8 {
    open spec fn level(self) -> int {
        self as int
    }

    open spec fn of(v: int) -> u8 {
        v as u8
    }

    proof fn lemma_of(v: int) {
    }

    proof fn lemma_level(self) {
    }

    open spec fn top() -> int {
        255
    }

    fn get(self) -> (r: i32) {
        self as i32
    }

    fn put(v: i32) -> (r: Self) {
        v as u8
    }
}

impl PlaneSample for u16 {
    open spec fn level(self) -> int {
        self as int
    }

    open spec fn of(v: int) -> u16 {
        v as u16
    }

    proof fn lemma_of(v: int) {
    }

    proof fn lemma_level(self) {
    }

    open spec fn top() -> int {
        65535
    }

    fn get(self) -> (r: i32) {
        self as i32
    }

    fn put(v: i32) -> (r: Self) {
        v as u16
    }
}

/// The values of a line of samples.
pub open spec fn levels<P: PlaneSample>(s: Seq<P>) -> Seq<int> {
    s.map_values(|p: P| p.level())
}

/// A value within `0..=top`.
pub open spec fn clip(v: int, top: int) -> int {
    max_int(0, min_int(v, top))
}

/// The sample at a position of a line, the nearest one outside it.
pub open spec fn nearest(s: Seq<int>, i: int) -> int {
    s[max_int(0, min_int(i, s.len() - 1))]
}

/// Sum of the first `n` taps of a filter over a line, from the third sample
/// before `pel` on.
pub open spec fn tap_sum(s: Seq<int>, bank: int, phase: int, pel: int, n: int) -> int
    decreases n,
{
    if n <= 0 {
        0
    } else {
        tap_sum(s, bank, phase, pel, n - 1) + bank_tap(bank, phase, n - 1) * nearest(s, pel - 3 + n - 1)
    }
}

/// The bank of filters for a change of length.
pub open spec fn bank_for(in_len: int, out_len: int) -> int {
    if out_len * 16 >= in_len * 16 {
        4
    } else if out_len * 16 >= in_len * 13 {
        3
    } else if out_len * 16 >= in_len * 11 {
        2
    } else if out_len * 16 >= in_len * 9 {
        1
    } else {
        0
    }
}

/// Distance of two output samples on the input line, in 1/16384 samples.
pub open spec fn interp_step(in_len: int, out_len: int) -> int {
    (in_len * 16384 + out_len / 2) / out_len
}

/// Position of the first output sample on the input line.
pub open spec fn interp_start(in_len: int, out_len: int) -> int {
    128 + if in_len > out_len {
        ((in_len - out_len) * 8192 + out_len / 2) / out_len
    } else {
        -(((out_len - in_len) * 8192 + out_len / 2) / out_len)
    }
}

/// Position of output sample `x` on the input line.
pub open spec fn interp_pos(in_len: int, out_len: int, x: int) -> int {
    interp_start(in_len, out_len) + x * interp_step(in_len, out_len)
}

/// Output sample `x` of a line interpolated to `out_len` samples.
pub open spec fn interp_sample(s: Seq<int>, out_len: int, top: int, x: int) -> int {
    let pos = interp_pos(s.len() as int, out_len, x);
    clip(
        (tap_sum(s, bank_for(s.len() as int, out_len), (pos / 256) % 64, pos / 16384, 8) + 64) / 128,
        top,
    )
}

/// A line interpolated to `out_len` samples.
pub open spec fn interpolated(s: Seq<int>, out_len: int, top: int) -> Seq<int> {
    Seq::new(out_len as nat, |x: int| interp_sample(s, out_len, top, x))
}

/// Sum of the first `n` taps of the even half filter, around the gap after
/// sample `i`.
pub open spec fn even_sum(s: Seq<int>, i: int, n: int) -> int
    decreases n,
{
    if n <= 0 {
        64
    } else {
        even_sum(s, i, n - 1) + (nearest(s, i - (n - 1)) + nearest(s, i + n))
            * DOWN2_SYMEVEN_HALF_FILTER[n - 1]
    }
}

/// Sum of the first `n` taps of the odd half filter, around sample `i`.
pub open spec fn odd_sum(s: Seq<int>, i: int, n: int) -> int
    decreases n,
{
    if n <= 1 {
        64 + nearest(s, i) * DOWN2_SYMODD_HALF_FILTER[0]
    } else {
        odd_sum(s, i, n - 1) + (nearest(s, i - (n - 1)) + nearest(s, i + (n - 1)))
            * DOWN2_SYMODD_HALF_FILTER[n - 1]
    }
}

/// A line of half the length, rounded up.
pub open spec fn halved(s: Seq<int>, top: int) -> Seq<int> {
    Seq::new(
        ((s.len() + 1) / 2) as nat,
        |x: int|
            clip(
                (if s.len() % 2 == 1 {
                    odd_sum(s, 2 * x, 4)
                } else {
                    even_sum(s, 2 * x, 4)
                }) / 128,
                top,
            ),
    )
}

/// How often a line of `in_len` samples is halved on the way to `out_len`.
pub open spec fn halvings(in_len: int, out_len: int) -> int
    decreases in_len,
{
    let half = (in_len + 1) / 2;
    if half < out_len {
        0
    } else if half <= 1 || in_len <= 1 {
        1
    } else {
        1 + halvings(half, out_len)
    }
}

/// A line halved `n` times.
pub open spec fn halved_often(s: Seq<int>, n: int, top: int) -> Seq<int>
    decreases n,
{
    if n <= 0 {
        s
    } else {
        halved(halved_often(s, n - 1, top), top)
    }
}

/// A line resized to `out_len` samples.
pub open spec fn resized(s: Seq<int>, out_len: int, top: int) -> Seq<int> {
    if s.len() == out_len {
        s
    } else {
        let t = halved_often(s, halvings(s.len() as int, out_len), top);
        if t.len() == out_len {
            t
        } else {
            interpolated(t, out_len, top)
        }
    }
}

/// Longest line: the lengths of a plane are 32-bit numbers.
pub const MAX_LINE: usize = 0x7fff_ffff;

fn clip_sample<P: PlaneSample>(v: i64, top: i32) -> (r: P)
    requires
        0 <= top <= P::top(),
    ensures
        r.level() == clip(v as int, top as int),
{
    let c: i32 = if v < 0 {
        0
    } else if v > top as i64 {
        top
    } else {
        v as i32
    };
    proof {
        P::lemma_of(c as int);
    }
    P::put(c)
}

fn nearest_sample<P: PlaneSample>(input: &Vec<P>, i: i64) -> (r: i64)
    requires
        1 <= input.len() <= MAX_LINE,
    ensures
        r == nearest(levels(input@), i as int),
        0 <= r <= 0xffff,
{
    let n: i64 = input.len() as i64;
    let k: usize = if i < 0 {
        0
    } else if i >= n {
        input.len() - 1
    } else {
        i as usize
    };
    input[k].get() as i64
}

fn choose_interp_filter(in_length: usize, out_length: usize) -> (r: u8)
    requires
        in_length <= MAX_LINE,
        out_length <= MAX_LINE,
    ensures
        r == bank_for(in_length as int, out_length as int),
{
    let in_len: u64 = in_length as u64;
    let out16: u64 = out_length as u64 * 16;
    if out16 >= in_len * 16 {
        4
    } else if out16 >= in_len * 13 {
        3
    } else if out16 >= in_len * 11 {
        2
    } else if out16 >= in_len * 9 {
        1
    } else {
        0
    }
}

/// Interpolate a line to `out_length` samples.
#[verifier::spinoff_prover]
fn interpolate<P: PlaneSample>(input: &Vec<P>, out_length: usize, top: i32) -> (r: Vec<P>)
    requires
        1 <= input.len() <= MAX_LINE,
        1 <= out_length <= MAX_LINE,
        0 <= top <= P::top(),
    ensures
        levels(r@) == interpolated(levels(input@), out_length as int, top as int),
{
    let ghost s = levels(input@);
    let bank: u8 = choose_interp_filter(input.len(), out_length);
    let in_len: i64 = input.len() as i64;
    let out_len: i64 = out_length as i64;
    let delta: i64 = (in_len * 16384 + out_len / 2) / out_len;
    let offset: i64 = if in_len > out_len {
        ((in_len - out_len) * 8192 + out_len / 2) / out_len
    } else {
        -(((out_len - in_len) * 8192 + out_len / 2) / out_len)
    };
    proof {
        lemma_quotient(in_len * 16384 + out_len / 2, out_len as int);
        if in_len > out_len {
            lemma_quotient((in_len - out_len) * 8192 + out_len / 2, out_len as int);
        } else {
            lemma_quotient((out_len - in_len) * 8192 + out_len / 2, out_len as int);
        }
    }
    let mut out: Vec<P> = Vec::new();
    let mut y: i64 = offset + 128;
    assert(0 * delta == 0) by (nonlinear_arith);
    assert(delta == interp_step(in_len as int, out_len as int));
    assert(y == interp_start(in_len as int, out_len as int));
    for x in 0..out_length
        invariant
            s == levels(input@),
            1 <= input.len() <= MAX_LINE,
            1 <= out_length <= MAX_LINE,
            0 <= top <= P::top(),
            in_len == input.len(),
            out_len == out_length,
            bank == bank_for(in_len as int, out_len as int),
            delta == interp_step(in_len as int, out_len as int),
            0 <= delta <= 0x8000_0000_0000,
            0 <= out_len * delta <= 0x8000_0000_0000,
            y == interp_pos(in_len as int, out_len as int, x as int),
            -0x4000_0000_0000 <= y - x * delta <= 0x4000_0000_0000,
            out.len() == x,
            forall|k: int|
                0 <= k < x ==> (#[trigger] out[k]).level() == interp_sample(
                    s,
                    out_len as int,
                    top as int,
                    k,
                ),
    {
        proof {
            assert((x + 1) * delta == x * delta + delta) by (nonlinear_arith);
            assert(0 <= x * delta <= out_len * delta) by (nonlinear_arith)
                requires
                    0 <= x <= out_len,
                    0 <= delta,
            ;
            assert(crate::arith::pow2i(14) == 16384 && crate::arith::pow2i(8) == 256
                && crate::arith::pow2i(7) == 128) by {
                reveal_with_fuel(crate::arith::pow2i, 15);
            }
            assert(-0x1_0000_0000_0000 <= y <= 0x1_0000_0000_0000);
        }
        let pel: i64 = shr_i64(y, 14);
        let fine: i64 = shr_i64(y, 8);
        assert(pel == y as int / 16384 && fine == y as int / 256);
        let phase: i64 = if fine >= 0 {
            fine % 64
        } else {
            (63 - ((-1 - fine) % 64))
        };
        assert(phase == (y as int / 256) % 64);
        let mut sum: i64 = 0;
        for k in 0usize..8
            invariant
                s == levels(input@),
                1 <= input.len() <= MAX_LINE,
                0 <= phase < 64,
                -0x1_0000_0000_0000 <= pel <= 0x1_0000_0000_0000,
                sum == tap_sum(s, bank as int, phase as int, pel as int, k as int),
                -0x1_0000_0000 * k <= sum <= 0x1_0000_0000 * k,
        {
            let f: i64 = tap(bank, phase as usize, k) as i64;
            let v: i64 = nearest_sample(input, pel - 3 + k as i64);
            assert(-0x1_0000_0000 <= f * v <= 0x1_0000_0000) by (nonlinear_arith)
                requires
                    -0x8000 <= f <= 0x7fff,
                    0 <= v <= 0xffff,
            ;
            sum = sum + f * v;
        }
        let sample: P = clip_sample(shr_i64(sum + 64, 7), top);
        assert(sample.level() == interp_sample(s, out_len as int, top as int, x as int));
        out.push(sample);
        y = y + delta;
    }
    assert(levels(out@) =~= interpolated(s, out_length as int, top as int));
    out
}

proof fn lemma_quotient(a: int, b: int)
    requires
        0 <= a,
        1 <= b,
    ensures
        0 <= a / b <= a,
        0 <= b * (a / b) <= a,
{
    assert(0 <= a / b <= a && 0 <= b * (a / b) <= a) by (nonlinear_arith)
        requires
            0 <= a,
            1 <= b,
    ;
}

/// Halve a line.
fn down2<P: PlaneSample>(input: &Vec<P>, top: i32) -> (r: Vec<P>)
    requires
        1 <= input.len() <= MAX_LINE,
        0 <= top <= P::top(),
    ensures
        levels(r@) == halved(levels(input@), top as int),
{
    let ghost s = levels(input@);
    let n: usize = input.len();
    let half: usize = (n + 1) / 2;
    let odd: bool = n % 2 == 1;
    let mut out: Vec<P> = Vec::new();
    for x in 0..half
        invariant
            s == levels(input@),
            n == input.len(),
            1 <= n <= MAX_LINE,
            half == (n + 1) / 2,
            odd == (n % 2 == 1),
            0 <= top <= P::top(),
            out.len() == x,
            forall|k: int|
                0 <= k < x ==> (#[trigger] out[k]).level() == halved(s, top as int)[k],
    {
        let i: i64 = 2 * x as i64;
        let sum: i64 = if odd {
            odd_filter(input, i)
        } else {
            even_filter(input, i)
        };
        proof {
            crate::arith::lemma_pow2i_values();
        }
        let sample: P = clip_sample(shr_i64(sum, 7), top);
        out.push(sample);
    }
    assert(levels(out@) =~= halved(s, top as int));
    out
}

fn even_filter<P: PlaneSample>(input: &Vec<P>, i: i64) -> (r: i64)
    requires
        1 <= input.len() <= MAX_LINE,
        0 <= i <= 0x8000_0000,
    ensures
        r == even_sum(levels(input@), i as int, 4),
{
    let mut sum: i64 = 64;
    for j in 0usize..4
        invariant
            1 <= input.len() <= MAX_LINE,
            0 <= i <= 0x8000_0000,
            sum == even_sum(levels(input@), i as int, j as int),
            -0x2_0000_0000 * (j + 1) <= sum <= 0x2_0000_0000 * (j + 1),
    {
        let f: i64 = DOWN2_SYMEVEN_HALF_FILTER[j] as i64;
        let v: i64 = nearest_sample(input, i - j as i64) + nearest_sample(input, i + 1 + j as i64);
        assert(-0x2_0000_0000 <= v * f <= 0x2_0000_0000) by (nonlinear_arith)
            requires
                -0x8000 <= f <= 0x7fff,
                0 <= v <= 0x1_fffe,
        ;
        sum = sum + v * f;
    }
    sum
}

fn odd_filter<P: PlaneSample>(input: &Vec<P>, i: i64) -> (r: i64)
    requires
        1 <= input.len() <= MAX_LINE,
        0 <= i <= 0x8000_0000,
    ensures
        r == odd_sum(levels(input@), i as int, 4),
{
    let c: i64 = nearest_sample(input, i);
    let mut sum: i64 = 64 + c * 64;
    for j in 1usize..4
        invariant
            1 <= input.len() <= MAX_LINE,
            0 <= i <= 0x8000_0000,
            sum == odd_sum(levels(input@), i as int, j as int),
            -0x2_0000_0000 * (j + 1) <= sum <= 0x2_0000_0000 * (j + 1),
    {
        let f: i64 = DOWN2_SYMODD_HALF_FILTER[j] as i64;
        let v: i64 = nearest_sample(input, i - j as i64) + nearest_sample(input, i + j as i64);
        assert(-0x2_0000_0000 <= v * f <= 0x2_0000_0000) by (nonlinear_arith)
            requires
                -0x8000 <= f <= 0x7fff,
                0 <= v <= 0x1_fffe,
        ;
        sum = sum + v * f;
    }
    sum
}

fn get_down2_steps(in_length: usize, out_length: usize) -> (r: usize)
    requires
        1 <= in_length <= MAX_LINE,
        1 <= out_length,
    ensures
        r == halvings(in_length as int, out_length as int),
{
    let ghost (n0, m) = (in_length as int, out_length as int);
    let mut steps: usize = 0;
    let mut length: usize = in_length;
    loop
        invariant_except_break
            1 <= length <= MAX_LINE,
            m == out_length,
            steps + length <= in_length,
            steps + halvings(length as int, m) == halvings(n0, m),
            in_length <= MAX_LINE,
        ensures
            steps == halvings(n0, m),
        decreases length,
    {
        let half: usize = (length + 1) / 2;
        if half < out_length {
            break;
        }
        if half == 1 {
            steps = steps + 1;
            break;
        }
        steps = steps + 1;
        length = half;
    }
    steps
}

fn copy_line<P: PlaneSample>(input: &Vec<P>) -> (r: Vec<P>)
    ensures
        r@ == input@,
{
    let mut out: Vec<P> = Vec::new();
    for k in 0..input.len()
        invariant
            out.len() == k,
            forall|j: int| 0 <= j < k ==> #[trigger] out[j] == input[j],
    {
        out.push(input[k]);
    }
    assert(out@ =~= input@);
    out
}

/// Resize a line.
fn resize_multistep<P: PlaneSample>(input: &Vec<P>, out_length: usize, top: i32) -> (r: Vec<P>)
    requires
        1 <= input.len() <= MAX_LINE,
        1 <= out_length <= MAX_LINE,
        0 <= top <= P::top(),
    ensures
        levels(r@) == resized(levels(input@), out_length as int, top as int),
        r.len() == out_length,
{
    let ghost s = levels(input@);
    if input.len() == out_length {
        return copy_line(input);
    }
    let steps: usize = get_down2_steps(input.len(), out_length);
    let mut cur: Vec<P> = copy_line(input);
    for k in 0..steps
        invariant
            s == levels(input@),
            0 <= top <= P::top(),
            1 <= cur.len() <= MAX_LINE,
            levels(cur@) == halved_often(s, k as int, top as int),
    {
        let ghost before = levels(cur@);
        assert(before.len() == cur.len());
        let next = down2(&cur, top);
        assert(levels(next@).len() == next.len());
        cur = next;
    }
    assert(levels(cur@).len() == cur.len());
    if cur.len() == out_length {
        cur
    } else {
        let out = interpolate(&cur, out_length, top);
        assert(levels(out@).len() == out.len());
        out
    }
}

/// The samples of a row of a plane.
pub open spec fn row_levels<P: PlaneSample>(s: Seq<P>, stride: int, width: int, y: int) -> Seq<int> {
    Seq::new(width as nat, |x: int| s[y * stride + x].level())
}

/// Column `x` after all rows were resized.
pub open spec fn column_levels<P: PlaneSample>(
    s: Seq<P>,
    stride: int,
    height: int,
    width: int,
    width2: int,
    top: int,
    x: int,
) -> Seq<int> {
    Seq::new(height as nat, |y: int| resized(row_levels(s, stride, width, y), width2, top)[x])
}

/// The sample of a resized plane in row `y` and column `x`.
pub open spec fn plane_sample<P: PlaneSample>(
    s: Seq<P>,
    stride: int,
    height: int,
    width: int,
    height2: int,
    width2: int,
    top: int,
    y: int,
    x: int,
) -> int {
    resized(column_levels(s, stride, height, width, width2, top, x), height2, top)[y]
}

fn row_of<P: PlaneSample>(input: &[P], start: usize, width: usize, Ghost(stride): Ghost<int>, Ghost(
    y,
): Ghost<int>) -> (r: Vec<P>)
    requires
        start + width <= input.len(),
        start == y * stride,
    ensures
        levels(r@) == row_levels(input@, stride, width as int, y),
{
    let mut out: Vec<P> = Vec::new();
    for x in 0..width
        invariant
            start + width <= input.len(),
            start == y * stride,
            out.len() == x,
            forall|j: int| 0 <= j < x ==> #[trigger] out[j] == input[y * stride + j],
    {
        out.push(input[start + x]);
    }
    assert(levels(out@) =~= row_levels(input@, stride, width as int, y));
    out
}

fn column_of<P: PlaneSample>(rows: &Vec<Vec<P>>, x: usize) -> (r: Vec<P>)
    requires
        forall|y: int| 0 <= y < rows.len() ==> x < (#[trigger] rows[y]).len(),
    ensures
        r.len() == rows.len(),
        forall|y: int| 0 <= y < rows.len() ==> #[trigger] r[y] == rows[y][x as int],
{
    let mut out: Vec<P> = Vec::new();
    for y in 0..rows.len()
        invariant
            forall|y: int| 0 <= y < rows.len() ==> x < (#[trigger] rows[y]).len(),
            out.len() == y,
            forall|j: int| 0 <= j < y ==> #[trigger] out[j] == rows[j][x as int],
    {
        out.push(rows[y][x]);
    }
    out
}

/// Start of row `y` in rows `stride` apart.
pub open spec fn row_start(stride: int, y: int) -> int {
    y * stride
}

/// `height` rows of `width` samples, `stride` apart, lie in a buffer.
pub open spec fn plane_fits(len: int, stride: int, height: int, width: int) -> bool {
    forall|y: int|
        0 <= y < height ==> 0 <= #[trigger] row_start(stride, y) && row_start(stride, y) + width
            <= len
}

/// Position of row `y` and column `x`.
pub open spec fn cell(stride: int, y: int, x: int) -> int {
    y * stride + x
}

/// The cell in row `y` and column `x` is among the columns before `cols` and
/// the first `rows` rows of that column.
pub open spec fn is_written(height: int, cols: int, rows: int, y: int, x: int) -> bool {
    0 <= y < height && 0 <= x && (x < cols || (x == cols && y < rows))
}

/// No cell that is written later, column by column, has the position of this
/// one; where rows do not overlap, none has.
pub open spec fn is_kept(stride: int, height: int, cols: int, rows: int, y: int, x: int) -> bool {
    forall|v: int, u: int|
        is_written(height, cols, rows, v, u) && (u > x || (u == x && v > y)) ==> #[trigger] cell(
            stride,
            v,
            u,
        ) != cell(stride, y, x)
}

/// The written cells of `out` hold the samples of a resized plane, and nothing
/// else of it is changed.
pub open spec fn holds_resized<P: PlaneSample>(
    before: Seq<P>,
    out: Seq<P>,
    out_stride: int,
    height2: int,
    cols: int,
    rows: int,
    sample: spec_fn(int, int) -> int,
) -> bool {
    &&& out.len() == before.len()
    &&& forall|y: int, x: int|
        is_written(height2, cols, rows, y, x) && is_kept(out_stride, height2, cols, rows, y, x)
            ==> out[#[trigger] cell(out_stride, y, x)].level() == sample(y, x)
    &&& forall|k: int|
        0 <= k < out.len() && (forall|y: int, x: int|
            is_written(height2, cols, rows, y, x) ==> k != #[trigger] cell(out_stride, y, x))
            ==> #[trigger] out[k] == before[k]
}

/// Where rows are no longer than their distance every cell is kept.
pub proof fn law_cells_kept(stride: int, height: int, width: int, y: int, x: int)
    requires
        0 < width <= stride,
        0 <= x < width,
    ensures
        is_kept(stride, height, width, 0, y, x),
{
    assert forall|v: int, u: int|
        is_written(height, width, 0, v, u) && (u > x || (u == x && v > y)) implies #[trigger] cell(
        stride,
        v,
        u,
    ) != cell(stride, y, x) by {
        if v > y {
            assert(v * stride >= y * stride + stride) by (nonlinear_arith)
                requires
                    v >= y + 1,
                    stride >= 0,
            ;
        } else if v < y {
            assert(y * stride >= v * stride + stride) by (nonlinear_arith)
                requires
                    y >= v + 1,
                    stride >= 0,
            ;
        }
    }
}

fn resize_rows<P: PlaneSample>(
    input: &[P],
    height: usize,
    width: usize,
    in_stride: i64,
    width2: usize,
    top: i32,
) -> (r: Vec<Vec<P>>)
    requires
        1 <= width <= MAX_LINE,
        1 <= width2 <= MAX_LINE,
        height <= MAX_LINE,
        -0x8000_0000 <= in_stride <= 0x7fff_ffff,
        plane_fits(input.len() as int, in_stride as int, height as int, width as int),
        0 <= top <= P::top(),
    ensures
        r.len() == height,
        forall|y: int|
            0 <= y < height ==> (#[trigger] r[y]).len() == width2 && levels(r[y]@) == resized(
                row_levels(input@, in_stride as int, width as int, y),
                width2 as int,
                top as int,
            ),
{
    let mut rows: Vec<Vec<P>> = Vec::new();
    for y in 0..height
        invariant
            1 <= width <= MAX_LINE,
            1 <= width2 <= MAX_LINE,
            height <= MAX_LINE,
            -0x8000_0000 <= in_stride <= 0x7fff_ffff,
            plane_fits(input.len() as int, in_stride as int, height as int, width as int),
            0 <= top <= P::top(),
            rows.len() == y,
            forall|v: int|
                0 <= v < y ==> (#[trigger] rows[v]).len() == width2 && levels(rows[v]@) == resized(
                    row_levels(input@, in_stride as int, width as int, v),
                    width2 as int,
                    top as int,
                ),
    {
        assert(0 <= row_start(in_stride as int, y as int));
        assert(-0x8000_0000 * 0x8000_0000 <= y * in_stride <= 0x8000_0000 * 0x8000_0000)
            by (nonlinear_arith)
            requires
                0 <= y <= 0x8000_0000,
                -0x8000_0000 <= in_stride <= 0x7fff_ffff,
        ;
        let start: i64 = y as i64 * in_stride;
        let line = row_of(input, start as usize, width, Ghost(in_stride as int), Ghost(y as int));
        assert(levels(line@).len() == line.len());
        let out = resize_multistep(&line, width2, top);
        rows.push(out);
    }
    rows
}

/// Resize a plane: its rows, then its columns.
#[verifier::spinoff_prover]
fn resize_samples<P: PlaneSample>(
    input: &[P],
    height: usize,
    width: usize,
    in_stride: i64,
    output: &mut [P],
    height2: usize,
    width2: usize,
    out_stride: i64,
    top: i32,
)
    requires
        1 <= width <= MAX_LINE,
        1 <= height <= MAX_LINE,
        1 <= width2 <= MAX_LINE,
        1 <= height2 <= MAX_LINE,
        -0x8000_0000 <= in_stride <= 0x7fff_ffff,
        -0x8000_0000 <= out_stride <= 0x7fff_ffff,
        plane_fits(input.len() as int, in_stride as int, height as int, width as int),
        plane_fits(old(output).len() as int, out_stride as int, height2 as int, width2 as int),
        0 <= top <= P::top(),
    ensures
        holds_resized(
            old(output)@,
            final(output)@,
            out_stride as int,
            height2 as int,
            width2 as int,
            0,
            |y: int, x: int|
                plane_sample(
                    input@,
                    in_stride as int,
                    height as int,
                    width as int,
                    height2 as int,
                    width2 as int,
                    top as int,
                    y,
                    x,
                ),
        ),
{
    let ghost before = output@;
    let ghost (h2, os) = (height2 as int, out_stride as int);
    let ghost sample = |y: int, x: int|
        plane_sample(
            input@,
            in_stride as int,
            height as int,
            width as int,
            height2 as int,
            width2 as int,
            top as int,
            y,
            x,
        );
    let rows = resize_rows(input, height, width, in_stride, width2, top);
    for x in 0..width2
        invariant
            1 <= height <= MAX_LINE,
            1 <= width2 <= MAX_LINE,
            1 <= height2 <= MAX_LINE,
            h2 == height2,
            os == out_stride,
            -0x8000_0000 <= out_stride <= 0x7fff_ffff,
            plane_fits(output.len() as int, os, h2, width2 as int),
            0 <= top <= P::top(),
            rows.len() == height,
            forall|y: int|
                0 <= y < height ==> (#[trigger] rows[y]).len() == width2 && levels(rows[y]@)
                    == resized(
                    row_levels(input@, in_stride as int, width as int, y),
                    width2 as int,
                    top as int,
                ),
            sample == (|y: int, x: int|
                plane_sample(
                    input@,
                    in_stride as int,
                    height as int,
                    width as int,
                    height2 as int,
                    width2 as int,
                    top as int,
                    y,
                    x,
                )),
            holds_resized(before, output@, os, h2, x as int, 0, sample),
    {
        let column = column_of(&rows, x);
        proof {
            let target = column_levels(
                input@,
                in_stride as int,
                height as int,
                width as int,
                width2 as int,
                top as int,
                x as int,
            );
            assert forall|y: int| 0 <= y < height implies #[trigger] levels(column@)[y]
                == target[y] by {
                assert(column[y] == rows[y][x as int]);
                assert(levels(rows[y]@)[x as int] == rows[y][x as int].level());
            }
            assert(levels(column@) =~= target);
        }
        let line = resize_multistep(&column, height2, top);
        for y in 0..height2
            invariant
                1 <= height2 <= MAX_LINE,
                x < width2 <= MAX_LINE,
                h2 == height2,
                os == out_stride,
                -0x8000_0000 <= out_stride <= 0x7fff_ffff,
                plane_fits(output.len() as int, os, h2, width2 as int),
                line.len() == height2,
                forall|v: int| 0 <= v < h2 ==> (#[trigger] line[v]).level() == sample(v, x as int),
                holds_resized(before, output@, os, h2, x as int, y as int, sample),
        {
            let ghost out0 = output@;
            assert(0 <= row_start(os, y as int));
            assert(-0x8000_0000 * 0x8000_0000 <= y * out_stride <= 0x8000_0000 * 0x8000_0000)
                by (nonlinear_arith)
                requires
                    0 <= y <= 0x8000_0000,
                    -0x8000_0000 <= out_stride <= 0x7fff_ffff,
            ;
            let at: i64 = y as i64 * out_stride + x as i64;
            output[at as usize] = line[y];
            proof {
                lemma_write(
                    before,
                    out0,
                    output@,
                    os,
                    h2,
                    width2 as int,
                    x as int,
                    y as int,
                    line[y as int],
                    sample,
                );
            }
        }
        proof {
            lemma_column_done(before, output@, os, h2, x as int, sample);
        }
    }
}

proof fn lemma_write<P: PlaneSample>(
    before: Seq<P>,
    out0: Seq<P>,
    out: Seq<P>,
    os: int,
    h2: int,
    w2: int,
    x: int,
    y: int,
    value: P,
    sample: spec_fn(int, int) -> int,
)
    requires
        0 <= y < h2,
        0 <= x < w2,
        plane_fits(out0.len() as int, os, h2, w2),
        holds_resized(before, out0, os, h2, x, y, sample),
        out == out0.update(cell(os, y, x), value),
        value.level() == sample(y, x),
    ensures
        holds_resized(before, out, os, h2, x, y + 1, sample),
{
    let c = cell(os, y, x);
    assert(0 <= row_start(os, y) && row_start(os, y) + w2 <= out0.len());
    assert forall|v: int, u: int|
        is_written(h2, x, y + 1, v, u) && is_kept(os, h2, x, y + 1, v, u) implies out[#[trigger] cell(
        os,
        v,
        u,
    )].level() == sample(v, u) by {
        assert(0 <= row_start(os, v) && row_start(os, v) + w2 <= out0.len());
        if u == x && v == y {
        } else {
            assert(is_written(h2, x, y + 1, y, x));
            assert(cell(os, y, x) != cell(os, v, u));
            assert(is_written(h2, x, y, v, u));
            assert forall|a: int, b: int|
                is_written(h2, x, y, a, b) && (b > u || (b == u && a > v)) implies #[trigger] cell(
                os,
                a,
                b,
            ) != cell(os, v, u) by {
                assert(is_written(h2, x, y + 1, a, b));
            }
            assert(is_kept(os, h2, x, y, v, u));
            assert(out0[cell(os, v, u)].level() == sample(v, u));
        }
    }
    assert forall|k: int|
        0 <= k < out.len() && (forall|v: int, u: int|
            is_written(h2, x, y + 1, v, u) ==> k != #[trigger] cell(os, v, u)) implies
        #[trigger] out[k] == before[k] by {
        assert(is_written(h2, x, y + 1, y, x));
        assert(k != cell(os, y, x));
        assert forall|v: int, u: int| is_written(h2, x, y, v, u) implies k != #[trigger] cell(
            os,
            v,
            u,
        ) by {
            assert(is_written(h2, x, y + 1, v, u));
        }
        assert(out0[k] == before[k]);
    }
}

proof fn lemma_column_done<P: PlaneSample>(
    before: Seq<P>,
    out: Seq<P>,
    os: int,
    h2: int,
    x: int,
    sample: spec_fn(int, int) -> int,
)
    requires
        h2 >= 1,
        x >= 0,
        holds_resized(before, out, os, h2, x, h2, sample),
    ensures
        holds_resized(before, out, os, h2, x + 1, 0, sample),
{
    assert forall|v: int, u: int| is_written(h2, x, h2, v, u) == #[trigger] is_written(
        h2,
        x + 1,
        0,
        v,
        u,
    ) by {}
    assert forall|v: int, u: int|
        is_written(h2, x + 1, 0, v, u) && is_kept(os, h2, x + 1, 0, v, u) implies out[#[trigger] cell(
        os,
        v,
        u,
    )].level() == sample(v, u) by {
        assert(is_written(h2, x, h2, v, u));
        assert forall|a: int, b: int|
            is_written(h2, x, h2, a, b) && (b > u || (b == u && a > v)) implies #[trigger] cell(
            os,
            a,
            b,
        ) != cell(os, v, u) by {
            assert(is_written(h2, x + 1, 0, a, b));
        }
        assert(is_kept(os, h2, x, h2, v, u));
    }
    assert forall|k: int|
        0 <= k < out.len() && (forall|v: int, u: int|
            is_written(h2, x + 1, 0, v, u) ==> k != #[trigger] cell(os, v, u)) implies
        #[trigger] out[k] == before[k] by {
        assert forall|v: int, u: int| is_written(h2, x, h2, v, u) implies k != #[trigger] cell(
            os,
            v,
            u,
        ) by {
            assert(is_written(h2, x + 1, 0, v, u));
        }
    }
}

/// Resize a plane of 8-bit samples from `width` by `height` to `width2` by
/// `height2`, with rows `in_stride` and `out_stride` apart.
pub fn resize_plane(
    input: &[u8],
    height: i32,
    width: i32,
    in_stride: i32,
    output: &mut [u8],
    height2: i32,
    width2: i32,
    out_stride: i32,
)
    requires
        1 <= width,
        1 <= height,
        1 <= width2,
        1 <= height2,
        plane_fits(input.len() as int, in_stride as int, height as int, width as int),
        plane_fits(old(output).len() as int, out_stride as int, height2 as int, width2 as int),
    ensures
        holds_resized(
            old(output)@,
            final(output)@,
            out_stride as int,
            height2 as int,
            width2 as int,
            0,
            |y: int, x: int|
                plane_sample(
                    input@,
                    in_stride as int,
                    height as int,
                    width as int,
                    height2 as int,
                    width2 as int,
                    255,
                    y,
                    x,
                ),
        ),
{
    resize_samples(
        input,
        height as usize,
        width as usize,
        in_stride as i64,
        output,
        height2 as usize,
        width2 as usize,
        out_stride as i64,
        255,
    )
}

/// Resize a plane of samples of `bd` bits.
pub fn highbd_resize_plane(
    input: &[u16],
    height: i32,
    width: i32,
    in_stride: i32,
    output: &mut [u16],
    height2: i32,
    width2: i32,
    out_stride: i32,
    bd: i32,
)
    requires
        1 <= width,
        1 <= height,
        1 <= width2,
        1 <= height2,
        0 <= bd <= 16,
        plane_fits(input.len() as int, in_stride as int, height as int, width as int),
        plane_fits(old(output).len() as int, out_stride as int, height2 as int, width2 as int),
    ensures
        holds_resized(
            old(output)@,
            final(output)@,
            out_stride as int,
            height2 as int,
            width2 as int,
            0,
            |y: int, x: int|
                plane_sample(
                    input@,
                    in_stride as int,
                    height as int,
                    width as int,
                    height2 as int,
                    width2 as int,
                    crate::arith::pow2i(bd as int) - 1,
                    y,
                    x,
                ),
        ),
{
    proof {
        crate::arith::lemma_pow2i_mono(bd as int, 16);
        assert(crate::arith::pow2i(16) == 0x1_0000) by {
            reveal_with_fuel(crate::arith::pow2i, 17);
        }
    }
    let top: i32 = crate::tpl_model::pow2_of(bd as u8) - 1;
    resize_samples(
        input,
        height as usize,
        width as usize,
        in_stride as i64,
        output,
        height2 as usize,
        width2 as usize,
        out_stride as i64,
        top,
    )
}

/// The coded width of a frame under a superres denominator: eight parts in
/// `superres_denom`, to nearest, but no less than 16 or the width itself.
pub fn coded_superres_width(upscaled_width: i32, superres_denom: i32) -> (r: i32)
    requires
        superres_denom > 0,
        i32::MIN <= upscaled_width * 8,
        upscaled_width * 8 + superres_denom / 2 <= i32::MAX,
    ensures
        r == if superres_denom == SCALE_NUMERATOR {
            upscaled_width as int
        } else {
            max_int(
                crate::arith::trunc_div(
                    upscaled_width * 8 + superres_denom as int / 2,
                    superres_denom as int,
                ),
                min_int(upscaled_width as int, 16),
            )
        },
{
    if superres_denom == SCALE_NUMERATOR {
        return upscaled_width;
    }
    let min_dim: i64 = if upscaled_width < 16 {
        upscaled_width as i64
    } else {
        16
    };
    let d: i64 = superres_denom as i64;
    let scaled: i64 = upscaled_width as i64 * 8 + d / 2;
    let dim: i64 = if scaled < 0 {
        proof {
            lemma_quotient(-(scaled as int), d as int);
        }
        -((-scaled) / d)
    } else {
        proof {
            lemma_quotient(scaled as int, d as int);
        }
        scaled / d
    };
    if dim < min_dim {
        min_dim as i32
    } else {
        dim as i32
    }
}

/// All samples of a line have the value `c`.
pub open spec fn is_flat(s: Seq<int>, c: int) -> bool {
    forall|i: int| 0 <= i < s.len() ==> #[trigger] s[i] == c
}

/// A line of one value stays that, whatever length it is resized to.
pub proof fn law_flat_line_stays_flat(s: Seq<int>, c: int, out_len: int, top: int)
    requires
        s.len() >= 1,
        out_len >= 1,
        0 <= c <= top,
        is_flat(s, c),
    ensures
        resized(s, out_len, top).len() == out_len,
        is_flat(resized(s, out_len, top), c),
{
    if s.len() != out_len {
        let n = halvings(s.len() as int, out_len);
        lemma_halvings(s.len() as int, out_len);
        lemma_halved_often_flat(s, c, n, top);
        let t = halved_often(s, n, top);
        if t.len() != out_len {
            lemma_interpolated_flat(t, c, out_len, top);
        }
    }
}

proof fn lemma_halvings(n: int, m: int)
    ensures
        halvings(n, m) >= 0,
    decreases n,
{
    let half = (n + 1) / 2;
    if !(half < m) && !(half <= 1 || n <= 1) {
        lemma_halvings(half, m);
    }
}

proof fn lemma_halved_often_flat(s: Seq<int>, c: int, n: int, top: int)
    requires
        s.len() >= 1,
        0 <= c <= top,
        is_flat(s, c),
    ensures
        halved_often(s, n, top).len() >= 1,
        is_flat(halved_often(s, n, top), c),
    decreases n,
{
    if n > 0 {
        lemma_halved_often_flat(s, c, n - 1, top);
        let t = halved_often(s, n - 1, top);
        let h = halved(t, top);
        assert forall|x: int| 0 <= x < h.len() implies #[trigger] h[x] == c by {
            lemma_half_sums_flat(t, c, 2 * x);
        }
    }
}

proof fn lemma_half_sums_flat(s: Seq<int>, c: int, i: int)
    requires
        s.len() >= 1,
        is_flat(s, c),
    ensures
        even_sum(s, i, 4) == 64 + 128 * c,
        odd_sum(s, i, 4) == 64 + 128 * c,
{
    assert forall|k: int| #[trigger] nearest(s, k) == c by {}
    let (e, o) = (DOWN2_SYMEVEN_HALF_FILTER, DOWN2_SYMODD_HALF_FILTER);
    assert(e[0] == 56 && e[1] == 12 && e[2] == -3 && e[3] == -1);
    assert(o[0] == 64 && o[1] == 35 && o[2] == 0 && o[3] == -3);
    let d = c + c;
    let (e2, e3, o2, o3) = (e[2] as int, e[3] as int, o[2] as int, o[3] as int);
    assert(d * e2 == -3 * d && d * e3 == -d && d * o2 == 0 && d * o3 == -3 * d) by (nonlinear_arith)
        requires
            e2 == -3,
            e3 == -1,
            o2 == 0,
            o3 == -3,
    ;
    assert(even_sum(s, i, 0) == 64);
    assert(even_sum(s, i, 1) == 64 + (c + c) * 56);
    assert(even_sum(s, i, 2) == 64 + (c + c) * 68);
    assert(even_sum(s, i, 3) == 64 + (c + c) * 65);
    assert(even_sum(s, i, 4) == 64 + (c + c) * 64);
    assert(odd_sum(s, i, 1) == 64 + c * 64);
    assert(odd_sum(s, i, 2) == 64 + c * 64 + (c + c) * 35);
    assert(odd_sum(s, i, 3) == 64 + c * 64 + (c + c) * 35);
    assert(odd_sum(s, i, 4) == 64 + c * 64 + (c + c) * 32);
}

proof fn lemma_tap_sum_flat(s: Seq<int>, c: int, bank: int, phase: int, pel: int)
    requires
        s.len() >= 1,
        is_flat(s, c),
    ensures
        tap_sum(s, bank, phase, pel, 8) == c * crate::resize_filters::tap_total(bank, phase),
{
    let f = |k: int| bank_tap(bank, phase, k);
    assert forall|i: int| #[trigger] nearest(s, i) == c by {}
    reveal_with_fuel(tap_sum, 9);
    assert(f(0) * c + f(1) * c + f(2) * c + f(3) * c + f(4) * c + f(5) * c + f(6) * c + f(7) * c
        == c * (f(0) + f(1) + f(2) + f(3) + f(4) + f(5) + f(6) + f(7))) by (nonlinear_arith);
}

proof fn lemma_interpolated_flat(s: Seq<int>, c: int, out_len: int, top: int)
    requires
        s.len() >= 1,
        out_len >= 1,
        0 <= c <= top,
        is_flat(s, c),
    ensures
        is_flat(interpolated(s, out_len, top), c),
{
    let t = interpolated(s, out_len, top);
    assert forall|x: int| 0 <= x < t.len() implies #[trigger] t[x] == c by {
        let pos = interp_pos(s.len() as int, out_len, x);
        let bank = bank_for(s.len() as int, out_len);
        let phase = (pos / 256) % 64;
        crate::resize_filters::law_taps_add_up(bank, phase);
        lemma_tap_sum_flat(s, c, bank, phase, pos / 16384);
    }
}

/// A resized plane keeps rows and columns apart: with the height unchanged
/// each row is resized on its own.
pub proof fn law_unchanged_height<P: PlaneSample>(
    s: Seq<P>,
    stride: int,
    height: int,
    width: int,
    width2: int,
    top: int,
    y: int,
    x: int,
)
    requires
        0 <= y < height,
        0 <= x < width2,
    ensures
        plane_sample(s, stride, height, width, height, width2, top, y, x) == resized(
            row_levels(s, stride, width, y),
            width2,
            top,
        )[x],
{
}

/// A resized flat plane is flat.
pub proof fn law_flat_plane_stays_flat<P: PlaneSample>(
    s: Seq<P>,
    stride: int,
    height: int,
    width: int,
    height2: int,
    width2: int,
    top: int,
    c: int,
    y: int,
    x: int,
)
    requires
        height >= 1,
        width >= 1,
        height2 >= 1,
        width2 >= 1,
        0 <= c <= top,
        forall|v: int| 0 <= v < height ==> is_flat(#[trigger] row_levels(s, stride, width, v), c),
        0 <= y < height2,
        0 <= x < width2,
    ensures
        plane_sample(s, stride, height, width, height2, width2, top, y, x) == c,
{
    let column = column_levels(s, stride, height, width, width2, top, x);
    assert forall|v: int| 0 <= v < column.len() implies #[trigger] column[v] == c by {
        law_flat_line_stays_flat(row_levels(s, stride, width, v), c, width2, top);
    }
    law_flat_line_stays_flat(column, c, height2, top);
}

/// Both depths resize alike: a plane of eight bits and the same plane in
/// sixteen, resized at a depth of eight, have the same samples.
pub proof fn law_depths_agree(
    low: Seq<u8>,
    high: Seq<u16>,
    stride: int,
    height: int,
    width: int,
    height2: int,
    width2: int,
    y: int,
    x: int,
)
    requires
        1 <= width,
        1 <= height,
        low.len() == high.len(),
        forall|i: int| 0 <= i < low.len() ==> #[trigger] low[i] == high[i],
        plane_fits(low.len() as int, stride, height, width),
    ensures
        plane_sample(low, stride, height, width, height2, width2, 255, y, x) == plane_sample(
            high,
            stride,
            height,
            width,
            height2,
            width2,
            crate::arith::pow2i(8) - 1,
            y,
            x,
        ),
{
    assert(crate::arith::pow2i(8) == 256) by {
        reveal_with_fuel(crate::arith::pow2i, 9);
    }
    assert forall|v: int| 0 <= v < height implies #[trigger] row_levels(low, stride, width, v)
        == row_levels(high, stride, width, v) by {
        assert(0 <= row_start(stride, v) && row_start(stride, v) + width <= low.len());
        assert forall|u: int| 0 <= u < width implies #[trigger] row_levels(
            low,
            stride,
            width,
            v,
        )[u] == row_levels(high, stride, width, v)[u] by {
            assert(low[v * stride + u] == high[v * stride + u]);
        }
        assert(row_levels(low, stride, width, v) =~= row_levels(high, stride, width, v));
    }
    assert(column_levels(low, stride, height, width, width2, 255, x) =~= column_levels(
        high,
        stride,
        height,
        width,
        width2,
        255,
        x,
    ));
}

/// Twice the distance of input sample `i` from the place that output sample
/// `x` stands for on the input line, in 1/16384 samples and times the length
/// of the output: both lines cover the same stretch, and a sample lies in the
/// middle of its part of it.
pub open spec fn off_place(in_len: int, out_len: int, x: int, i: int) -> int {
    16384 * ((2 * i + 1) * out_len - (2 * x + 1) * in_len)
}

/// How far the rounded position of an output sample is from its place.
proof fn lemma_position(n: int, out: int, x: int)
    requires
        n >= 1,
        out >= 1,
        x >= 0,
    ensures
        ({
            let twice = 2 * out * interp_pos(n, out, x);
            let place = 16384 * ((2 * x + 1) * n - out);
            256 * out - (x + 1) * out <= twice - place <= 256 * out + (x + 1) * out
        }),
{
    let step = interp_step(n, out);
    let start = interp_start(n, out) - 128;
    let (a, b) = (n * 16384 + out / 2, if n > out {
        (n - out) * 8192 + out / 2
    } else {
        (out - n) * 8192 + out / 2
    });
    assert(a - out < out * (a / out) <= a && b - out < out * (b / out) <= b) by (nonlinear_arith)
        requires
            out >= 1,
    ;
    let q = b / out;
    assert(out * (-q) == -(out * q)) by (nonlinear_arith);
    let e = 2 * out * step - 2 * n * 16384;
    let g = 2 * out * start - 2 * (n - out) * 8192;
    assert(2 * out * step == 2 * (out * step)) by (nonlinear_arith);
    assert(2 * out * start == 2 * (out * start)) by (nonlinear_arith);
    assert(out * step == out * (a / out));
    assert(-out <= e <= out);
    assert(-out <= g <= out);
    let pos = interp_pos(n, out, x);
    assert(2 * out * pos == 256 * out + 2 * out * start + x * (2 * out * step)) by (nonlinear_arith)
        requires
            pos == 128 + start + x * step,
    ;
    assert(x * (2 * out * step) == x * (2 * n * 16384) + x * e) by (nonlinear_arith)
        requires
            e == 2 * out * step - 2 * n * 16384,
    ;
    assert(-(x * out) <= x * e <= x * out) by (nonlinear_arith)
        requires
            x >= 0,
            -out <= e <= out,
    ;
    assert((x + 1) * out == x * out + out) by (nonlinear_arith);
    assert(16384 * ((2 * x + 1) * n - out) == x * (2 * n * 16384) + 16384 * n - 16384 * out)
        by (nonlinear_arith);
}

/// Samples that all taps of a filter read have the value `c`.
proof fn lemma_taps_read(s: Seq<int>, c: int, bank: int, phase: int, pel: int)
    requires
        0 <= bank <= 4,
        0 <= phase < 64,
        forall|k: int| 0 <= k < 8 ==> #[trigger] nearest(s, pel - 3 + k) == c,
    ensures
        tap_sum(s, bank, phase, pel, 8) == 128 * c,
{
    let f = |k: int| bank_tap(bank, phase, k);
    reveal_with_fuel(tap_sum, 9);
    crate::resize_filters::law_taps_add_up(bank, phase);
    assert(nearest(s, pel - 3 + 0) == c && nearest(s, pel - 3 + 1) == c && nearest(s, pel - 3 + 2)
        == c && nearest(s, pel - 3 + 3) == c && nearest(s, pel - 3 + 4) == c && nearest(
        s,
        pel - 3 + 5,
    ) == c && nearest(s, pel - 3 + 6) == c && nearest(s, pel - 3 + 7) == c);
    let total = f(0) + f(1) + f(2) + f(3) + f(4) + f(5) + f(6) + f(7);
    assert(f(0) * c + f(1) * c + f(2) * c + f(3) * c + f(4) * c + f(5) * c + f(6) * c + f(7) * c
        == c * total) by (nonlinear_arith)
        requires
            total == f(0) + f(1) + f(2) + f(3) + f(4) + f(5) + f(6) + f(7),
    ;
    assert(c * total == 128 * c) by (nonlinear_arith)
        requires
            total == 128,
    ;
}

/// A line that is resized without being halved keeps everything in its place:
/// where the input has one value all around the place of an output sample, up
/// to four samples off and what rounding adds, the output sample has that
/// value. Past an end of the line its last sample counts.
pub proof fn law_line_is_scaled_in_place(s: Seq<int>, out_len: int, top: int, x: int, c: int)
    requires
        1 <= s.len(),
        (s.len() + 1) / 2 < out_len,
        0 <= x < out_len,
        0 <= c <= top,
        forall|i: int|
            #![trigger s[i]]
            0 <= i < s.len() && ({
                let off = off_place(s.len() as int, out_len, x, i);
                let reach = out_len * (131072 + x + 257);
                (-reach <= off || i == s.len() - 1) && (off <= reach || i == 0)
            }) ==> s[i] == c,
    ensures
        resized(s, out_len, top).len() == out_len,
        resized(s, out_len, top)[x] == c,
{
    let n = s.len() as int;
    let reach = out_len * (131072 + x + 257);
    assert(halvings(n, out_len) == 0);
    assert(reach >= 0) by (nonlinear_arith)
        requires
            out_len >= 1,
            x >= 0,
            reach == out_len * (131072 + x + 257),
    ;
    if n == out_len {
        assert(off_place(n, out_len, x, x) == 0) by (nonlinear_arith)
            requires
                n == out_len,
                off_place(n, out_len, x, x) == 16384 * ((2 * x + 1) * out_len - (2 * x + 1) * n),
        ;
        assert(s[x] == c);
    } else {
        let pos = interp_pos(n, out_len, x);
        let pel = pos / 16384;
        lemma_position(n, out_len, x);
        assert forall|k: int| 0 <= k < 8 implies #[trigger] nearest(s, pel - 3 + k) == c by {
            let i = pel - 3 + k;
            let off = off_place(n, out_len, x, i);
            let far = 16384 * i - pos;
            assert(-65536 <= far <= 65536);
            assert(off == 2 * out_len * far + 2 * out_len * pos - 16384 * ((2 * x + 1) * n
                - out_len)) by (nonlinear_arith)
                requires
                    far == 16384 * i - pos,
                    off == 16384 * ((2 * i + 1) * out_len - (2 * x + 1) * n),
            ;
            assert(-131072 * out_len <= 2 * out_len * far <= 131072 * out_len)
                by (nonlinear_arith)
                requires
                    out_len >= 1,
                    -65536 <= far <= 65536,
            ;
            assert(reach == 131072 * out_len + (x + 1) * out_len + 256 * out_len)
                by (nonlinear_arith)
                requires
                    reach == out_len * (131072 + x + 257),
            ;
            assert(0 <= (x + 1) * out_len) by (nonlinear_arith)
                requires
                    x >= 0,
                    out_len >= 1,
            ;
            assert(-reach <= off <= reach);
            let j = max_int(0, min_int(i, n - 1));
            let offj = off_place(n, out_len, x, j);
            assert(i <= j ==> off <= offj) by (nonlinear_arith)
                requires
                    out_len >= 1,
                    off == 16384 * ((2 * i + 1) * out_len - (2 * x + 1) * n),
                    offj == 16384 * ((2 * j + 1) * out_len - (2 * x + 1) * n),
            ;
            assert(i >= j ==> off >= offj) by (nonlinear_arith)
                requires
                    out_len >= 1,
                    off == 16384 * ((2 * i + 1) * out_len - (2 * x + 1) * n),
                    offj == 16384 * ((2 * j + 1) * out_len - (2 * x + 1) * n),
            ;
            assert(s[j] == c);
        }
        lemma_taps_read(s, c, bank_for(n, out_len), (pos / 256) % 64, pel);
    }
}

/// A halved line keeps everything in its place: where the input has one value
/// around the two samples that an output sample stands for, three before the
/// first and three behind the second, the output sample has that value.
/// Halving on, each step reads as far again.
pub proof fn law_halved_line_stays_in_place(s: Seq<int>, n: int, top: int, x: int, c: int)
    requires
        1 <= s.len(),
        0 <= n,
        0 <= c <= top,
        0 <= x,
        x * crate::arith::pow2i(n) < s.len(),
        forall|i: int|
            0 <= i < s.len() && (x - 3) * crate::arith::pow2i(n) + 3 <= i <= (x + 4)
                * crate::arith::pow2i(n) - 4 ==> #[trigger] s[i] == c,
    ensures
        x < halved_often(s, n, top).len(),
        halved_often(s, n, top).len() * crate::arith::pow2i(n) < s.len()
            + crate::arith::pow2i(n),
        s.len() <= halved_often(s, n, top).len() * crate::arith::pow2i(n),
        halved_often(s, n, top)[x] == c,
    decreases n,
{
    let p = crate::arith::pow2i(n);
    if n == 0 {
        assert(p == 1);
        assert(x * 1 == x && (x - 3) * 1 == x - 3 && (x + 4) * 1 == x + 4) by (nonlinear_arith);
        assert(s[x] == c);
        assert(s.len() * 1 == s.len()) by (nonlinear_arith);
    } else {
        let q = crate::arith::pow2i(n - 1);
        crate::arith::lemma_pow2i_pos(n - 1);
        assert(p == 2 * q);
        let t = halved_often(s, n - 1, top);
        lemma_halved_often_len(s, n - 1, top);
        lemma_halved_often_len(s, n, top);
        assert(x < halved_often(s, n, top).len()) by (nonlinear_arith)
            requires
                x * p < s.len(),
                s.len() <= halved_often(s, n, top).len() * p,
                p >= 1,
        ;
        let m = t.len() as int;
        assert forall|i: int| 0 <= i < m && 2 * x - 3 <= i <= 2 * x + 4 implies #[trigger] t[i]
            == c by {
            assert((x - 3) * p + 3 <= (i - 3) * q + 3 && (i + 4) * q - 4 <= (x + 4) * p - 4)
                by (nonlinear_arith)
                requires
                    p == 2 * q,
                    q >= 1,
                    2 * x - 3 <= i <= 2 * x + 4,
            ;
            assert(i * q < s.len()) by (nonlinear_arith)
                requires
                    i + 1 <= m,
                    m * q < s.len() + q,
                    q >= 1,
            ;
            law_halved_line_stays_in_place(s, n - 1, top, i, c);
        }
        assert forall|i: int| 2 * x - 3 <= i <= 2 * x + 4 implies #[trigger] nearest(t, i) == c by {
            let j = max_int(0, min_int(i, m - 1));
            assert(t[j] == c);
        }
        lemma_half_sums_read(t, c, 2 * x);
    }
}

proof fn lemma_halved_often_len(s: Seq<int>, n: int, top: int)
    requires
        1 <= s.len(),
        0 <= n,
    ensures
        ({
            let (m, p) = (halved_often(s, n, top).len() as int, crate::arith::pow2i(n));
            m >= 1 && s.len() <= m * p && m * p < s.len() + p
        }),
    decreases n,
{
    let p = crate::arith::pow2i(n);
    if n == 0 {
        assert(s.len() * 1 == s.len()) by (nonlinear_arith);
    } else {
        lemma_halved_often_len(s, n - 1, top);
        crate::arith::lemma_pow2i_pos(n - 1);
        let q = crate::arith::pow2i(n - 1);
        let k = halved_often(s, n - 1, top).len() as int;
        let m = (k + 1) / 2;
        let l = s.len() as int;
        assert(l <= m * p && m * p < l + p) by (nonlinear_arith)
            requires
                p == 2 * q,
                q >= 1,
                k <= 2 * m <= k + 1,
                l <= k * q,
                k * q < l + q,
        ;
    }
}

proof fn lemma_half_sums_read(s: Seq<int>, c: int, i: int)
    requires
        forall|k: int| i - 3 <= k <= i + 4 ==> #[trigger] nearest(s, k) == c,
    ensures
        even_sum(s, i, 4) == 64 + 128 * c,
        odd_sum(s, i, 4) == 64 + 128 * c,
{
    let (e, o) = (DOWN2_SYMEVEN_HALF_FILTER, DOWN2_SYMODD_HALF_FILTER);
    assert(e[0] == 56 && e[1] == 12 && e[2] == -3 && e[3] == -1);
    assert(o[0] == 64 && o[1] == 35 && o[2] == 0 && o[3] == -3);
    let d = c + c;
    let (e2, e3, o2, o3) = (e[2] as int, e[3] as int, o[2] as int, o[3] as int);
    assert(d * e2 == -3 * d && d * e3 == -d && d * o2 == 0 && d * o3 == -3 * d) by (nonlinear_arith)
        requires
            e2 == -3,
            e3 == -1,
            o2 == 0,
            o3 == -3,
    ;
    assert(even_sum(s, i, 0) == 64);
    assert(even_sum(s, i, 1) == 64 + (c + c) * 56);
    assert(even_sum(s, i, 2) == 64 + (c + c) * 68);
    assert(even_sum(s, i, 3) == 64 + (c + c) * 65);
    assert(even_sum(s, i, 4) == 64 + (c + c) * 64);
    assert(odd_sum(s, i, 1) == 64 + c * 64);
    assert(odd_sum(s, i, 2) == 64 + c * 64 + (c + c) * 35);
    assert(odd_sum(s, i, 3) == 64 + c * 64 + (c + c) * 35);
    assert(odd_sum(s, i, 4) == 64 + c * 64 + (c + c) * 32);
}

/// A line is halved as long as it does not fall short of the length that is
/// asked for: what is left to interpolate is no shorter than the result and
/// less than twice as long, unless the line was shorter from the start.
pub proof fn law_halvings_stop_in_time(s: Seq<int>, out_len: int, top: int)
    requires
        1 <= s.len(),
        1 <= out_len,
    ensures
        ({
            let n = halvings(s.len() as int, out_len);
            let m = halved_often(s, n, top).len();
            if s.len() < out_len {
                n == 0
            } else {
                n >= 0 && out_len <= m && (m == 1 || m < 2 * out_len)
            }
        }),
{
    lemma_halvings(s.len() as int, out_len);
    lemma_halving_chain(s, 0, out_len, top);
}

/// From the `k`-th halving on.
proof fn lemma_halving_chain(s: Seq<int>, k: int, out_len: int, top: int)
    requires
        0 <= k,
        1 <= out_len,
        1 <= halved_often(s, k, top).len(),
    ensures
        ({
            let l = halved_often(s, k, top).len() as int;
            let n = halvings(l, out_len);
            let m = halved_often(s, k + n, top).len();
            l >= out_len ==> n >= 0 && out_len <= m && (m == 1 || m < 2 * out_len)
        }),
    decreases halved_often(s, k, top).len(),
{
    let l = halved_often(s, k, top).len() as int;
    let half = (l + 1) / 2;
    assert(halved_often(s, k + 1, top).len() == half);
    lemma_halvings(l, out_len);
    if half < out_len {
        assert(halvings(l, out_len) == 0);
    } else if half <= 1 || l <= 1 {
        assert(halvings(l, out_len) == 1);
    } else {
        lemma_halving_chain(s, k + 1, out_len, top);
        assert(halvings(l, out_len) == 1 + halvings(half, out_len));
        assert(k + 1 + halvings(half, out_len) == k + halvings(l, out_len));
    }
}

/// Halving does not prefer a side: a reversed line is halved to the reverse.
pub proof fn law_halving_is_symmetric(s: Seq<int>, top: int, x: int)
    requires
        1 <= s.len(),
        0 <= x < (s.len() + 1) / 2,
    ensures
        halved(s.reverse(), top)[x] == halved(s, top)[(s.len() + 1) / 2 - 1 - x],
{
    let r = s.reverse();
    let l = s.len() as int;
    let z = (l + 1) / 2 - 1 - x;
    assert forall|i: int| #[trigger] nearest(r, i) == nearest(s, l - 1 - i) by {}
    let (e, o) = (DOWN2_SYMEVEN_HALF_FILTER, DOWN2_SYMODD_HALF_FILTER);
    if l % 2 == 1 {
        assert(l - 1 - 2 * x == 2 * z);
        reveal_with_fuel(odd_sum, 5);
        assert(nearest(r, 2 * x) == nearest(s, 2 * z));
        assert(nearest(r, 2 * x - 1) == nearest(s, 2 * z + 1) && nearest(r, 2 * x + 1) == nearest(
            s,
            2 * z - 1,
        ));
        assert(nearest(r, 2 * x - 2) == nearest(s, 2 * z + 2) && nearest(r, 2 * x + 2) == nearest(
            s,
            2 * z - 2,
        ));
        assert(nearest(r, 2 * x - 3) == nearest(s, 2 * z + 3) && nearest(r, 2 * x + 3) == nearest(
            s,
            2 * z - 3,
        ));
        assert(odd_sum(r, 2 * x, 4) == odd_sum(s, 2 * z, 4));
    } else {
        assert(l - 2 - 2 * x == 2 * z);
        reveal_with_fuel(even_sum, 5);
        assert(nearest(r, 2 * x) == nearest(s, 2 * z + 1) && nearest(r, 2 * x + 1) == nearest(
            s,
            2 * z,
        ));
        assert(nearest(r, 2 * x - 1) == nearest(s, 2 * z + 2) && nearest(r, 2 * x + 2) == nearest(
            s,
            2 * z - 1,
        ));
        assert(nearest(r, 2 * x - 2) == nearest(s, 2 * z + 3) && nearest(r, 2 * x + 3) == nearest(
            s,
            2 * z - 2,
        ));
        assert(nearest(r, 2 * x - 3) == nearest(s, 2 * z + 4) && nearest(r, 2 * x + 4) == nearest(
            s,
            2 * z - 3,
        ));
        assert(even_sum(r, 2 * x, 4) == even_sum(s, 2 * z, 4));
    }
}

/// A line that is made longer keeps its samples: where an output sample stands
/// for the very place of an input sample, it is that sample. Rounding adds up
/// over the line, so this is stated of its first part.
pub proof fn law_lengthened_line_keeps_samples(s: Seq<int>, out_len: int, top: int, x: int, i: int)
    requires
        1 <= s.len() <= out_len,
        0 <= x < out_len,
        x <= 253,
        0 <= i < s.len(),
        (2 * i + 1) * out_len == (2 * x + 1) * s.len(),
        0 <= s[i] <= top,
    ensures
        resized(s, out_len, top)[x] == s[i],
{
    let n = s.len() as int;
    assert(halvings(n, out_len) == 0 || n == 1);
    if n == out_len {
        assert(i == x) by (nonlinear_arith)
            requires
                (2 * i + 1) * out_len == (2 * x + 1) * n,
                n == out_len,
                n >= 1,
        ;
    } else {
        assert(halvings(n, out_len) == 0);
        let pos = interp_pos(n, out_len, x);
        lemma_position(n, out_len, x);
        assert(16384 * ((2 * x + 1) * n - out_len) == 2 * out_len * (16384 * i)) by (nonlinear_arith)
            requires
                (2 * i + 1) * out_len == (2 * x + 1) * n,
        ;
        assert((x + 1) * out_len <= 254 * out_len) by (nonlinear_arith)
            requires
                x <= 253,
                out_len >= 1,
        ;
        assert(0 <= pos - 16384 * i <= 255) by (nonlinear_arith)
            requires
                2 * out_len <= 2 * out_len * pos - 2 * out_len * (16384 * i) <= 510 * out_len,
                out_len >= 1,
        ;
        assert(pos / 16384 == i && (pos / 256) % 64 == 0);
        assert(bank_for(n, out_len) == 4);
        crate::resize_filters::law_whole_positions_are_kept();
        reveal_with_fuel(tap_sum, 9);
        let f = |k: int| bank_tap(4, 0, k);
        let v = |k: int| nearest(s, i - 3 + k);
        assert(f(0) * v(0) == 0 && f(1) * v(1) == 0 && f(2) * v(2) == 0 && f(4) * v(4) == 0 && f(5)
            * v(5) == 0 && f(6) * v(6) == 0 && f(7) * v(7) == 0 && f(3) * v(3) == 128 * v(3))
            by (nonlinear_arith)
            requires
                f(0) == 0,
                f(1) == 0,
                f(2) == 0,
                f(3) == 128,
                f(4) == 0,
                f(5) == 0,
                f(6) == 0,
                f(7) == 0,
        ;
        assert(v(3) == s[i]);
        assert(tap_sum(s, 4, 0, i, 8) == 128 * s[i]);
    }
}

/// A line with the one sample `v` at `i`, and 0 elsewhere.
pub open spec fn lone(len: int, i: int, v: int) -> Seq<int> {
    Seq::new(
        len as nat,
        |k: int|
            if k == i {
                v
            } else {
                0
            },
    )
}

/// Of the two input samples between which an output sample lies, the nearer
/// one counts at least as much: of two lines with one sample each, at `i` and
/// at the next place, the one whose sample is nearer gives the larger output.
pub proof fn law_nearer_sample_counts_more(len: int, out_len: int, top: int, x: int, i: int, v: int)
    requires
        len != out_len,
        (len + 1) / 2 < out_len,
        0 <= x < out_len,
        3 <= i,
        i + 4 < len,
        0 <= v <= top,
    ensures
        ({
            let here = resized(lone(len, i, v), out_len, top)[x];
            let next = resized(lone(len, i + 1, v), out_len, top)[x];
            let off = -off_place(len, out_len, x, i);
            &&& out_len * x <= off <= out_len * (16384 - x) ==> here >= next
            &&& out_len * (16384 + x) <= off <= out_len * (32500 - x) ==> here <= next
        }),
{
    let a = lone(len, i, v);
    let b = lone(len, i + 1, v);
    let off = -off_place(len, out_len, x, i);
    assert(halvings(len, out_len) == 0);
    let pos = interp_pos(len, out_len, x);
    let bank = bank_for(len, out_len);
    let phase = (pos / 256) % 64;
    let far = pos - 16384 * i;
    lemma_position(len, out_len, x);
    assert(2 * out_len * far == 2 * out_len * pos - 16384 * ((2 * x + 1) * len - out_len) + off)
        by (nonlinear_arith)
        requires
            far == pos - 16384 * i,
            off == -(16384 * ((2 * i + 1) * out_len - (2 * x + 1) * len)),
    ;
    assert((x + 1) * out_len == out_len * x + out_len) by (nonlinear_arith);
    assert(out_len * (16384 - x) == 16384 * out_len - out_len * x && out_len * (16384 + x) == 16384
        * out_len + out_len * x && out_len * (32500 - x) == 32500 * out_len - out_len * x)
        by (nonlinear_arith);
    let low = out_len * x <= off <= out_len * (16384 - x);
    let high = out_len * (16384 + x) <= off <= out_len * (32500 - x);
    if low || high {
        if low {
            assert(0 <= far <= 8447) by (nonlinear_arith)
                requires
                    255 * out_len <= 2 * out_len * far <= 16641 * out_len,
                    out_len >= 1,
            ;
            assert(far / 256 <= 32);
        }
        if high {
            assert(8192 <= far <= 16383) by (nonlinear_arith)
                requires
                    16639 * out_len <= 2 * out_len * far <= 32757 * out_len,
                    out_len >= 1,
            ;
            assert(32 <= far / 256 <= 63);
        }
        assert(pos / 16384 == i);
        assert(pos / 256 == 64 * i + far / 256);
        assert(phase == far / 256);
        crate::resize_filters::law_nearer_tap_is_larger(bank, phase);
        lemma_lone_tap(a, bank, phase, i, 3, v);
        lemma_lone_tap(b, bank, phase, i, 4, v);
        let (f, g) = (bank_tap(bank, phase, 3), bank_tap(bank, phase, 4));
        assert((f >= g ==> f * v >= g * v) && (f <= g ==> f * v <= g * v)) by (nonlinear_arith)
            requires
                v >= 0,
        ;
        assert(resized(a, out_len, top)[x] == interp_sample(a, out_len, top, x));
        assert(resized(b, out_len, top)[x] == interp_sample(b, out_len, top, x));
        assert(interp_sample(a, out_len, top, x) == clip((f * v + 64) / 128, top));
        assert(interp_sample(b, out_len, top, x) == clip((g * v + 64) / 128, top));
    }
}

/// A line of zeros but for one sample gives the tap that meets it.
proof fn lemma_lone_tap(s: Seq<int>, bank: int, phase: int, pel: int, k: int, v: int)
    requires
        s == lone(s.len() as int, pel - 3 + k, v),
        3 <= pel,
        pel + 4 < s.len(),
        3 <= k <= 4,
    ensures
        tap_sum(s, bank, phase, pel, 8) == bank_tap(bank, phase, k) * v,
{
    reveal_with_fuel(tap_sum, 9);
    assert forall|j: int| 0 <= j < 8 implies #[trigger] nearest(s, pel - 3 + j) == if j == k {
        v
    } else {
        0
    } by {}
    let f = |j: int| bank_tap(bank, phase, j);
    assert(nearest(s, pel - 3 + 0) == 0 && nearest(s, pel - 3 + 1) == 0 && nearest(s, pel - 3 + 2)
        == 0 && nearest(s, pel - 3 + 5) == 0 && nearest(s, pel - 3 + 6) == 0 && nearest(
        s,
        pel - 3 + 7,
    ) == 0);
    assert(nearest(s, pel - 3 + 3) == if k == 3 {
        v
    } else {
        0
    });
    assert(nearest(s, pel - 3 + 4) == if k == 4 {
        v
    } else {
        0
    });
    assert(f(0) * 0 == 0 && f(1) * 0 == 0 && f(2) * 0 == 0 && f(3) * 0 == 0 && f(4) * 0 == 0 && f(5)
        * 0 == 0 && f(6) * 0 == 0 && f(7) * 0 == 0) by (nonlinear_arith);
}

proof fn lemma_resized_range(s: Seq<int>, out_len: int, top: int)
    requires
        1 <= s.len(),
        1 <= out_len,
        0 <= top,
        forall|i: int| 0 <= i < s.len() ==> 0 <= #[trigger] s[i] <= top,
    ensures
        resized(s, out_len, top).len() == out_len,
        forall|i: int| 0 <= i < out_len ==> 0 <= #[trigger] resized(s, out_len, top)[i] <= top,
{
    if s.len() != out_len {
        let n = halvings(s.len() as int, out_len);
        lemma_halvings(s.len() as int, out_len);
        lemma_halved_range(s, n, top);
    }
}

proof fn lemma_halved_range(s: Seq<int>, n: int, top: int)
    requires
        0 <= top,
        forall|i: int| 0 <= i < s.len() ==> 0 <= #[trigger] s[i] <= top,
    ensures
        forall|i: int|
            0 <= i < halved_often(s, n, top).len() ==> 0 <= #[trigger] halved_often(s, n, top)[i]
                <= top,
    decreases n,
{
    if n > 0 {
        lemma_halved_range(s, n - 1, top);
    }
}

/// A plane whose rows are all alike is resized to rows that are all alike:
/// each is the row resized to the new width, whatever the height.
pub proof fn law_like_rows_resize_as_one<P: PlaneSample>(
    s: Seq<P>,
    stride: int,
    height: int,
    width: int,
    height2: int,
    width2: int,
    top: int,
    line: Seq<int>,
    y: int,
    x: int,
)
    requires
        1 <= height,
        1 <= width == line.len(),
        1 <= height2,
        1 <= width2,
        forall|i: int| 0 <= i < width ==> 0 <= #[trigger] line[i] <= top,
        forall|v: int, u: int|
            0 <= v < height && 0 <= u < width ==> s[#[trigger] cell(stride, v, u)].level()
                == line[u],
        0 <= y < height2,
        0 <= x < width2,
    ensures
        plane_sample(s, stride, height, width, height2, width2, top, y, x) == resized(
            line,
            width2,
            top,
        )[x],
{
    assert(0 <= line[0] <= top);
    let column = column_levels(s, stride, height, width, width2, top, x);
    lemma_resized_range(line, width2, top);
    let c = resized(line, width2, top)[x];
    assert forall|v: int| 0 <= v < column.len() implies #[trigger] column[v] == c by {
        let row = row_levels(s, stride, width, v);
        assert forall|u: int| 0 <= u < width implies #[trigger] row[u] == line[u] by {
            assert(s[cell(stride, v, u)].level() == line[u]);
        }
        assert(row =~= line);
    }
    law_flat_line_stays_flat(column, c, height2, top);
}

/// A plane whose columns are all alike is resized to columns that are all
/// alike: each is the column resized to the new height, whatever the width.
pub proof fn law_like_columns_resize_as_one<P: PlaneSample>(
    s: Seq<P>,
    stride: int,
    height: int,
    width: int,
    height2: int,
    width2: int,
    top: int,
    line: Seq<int>,
    y: int,
    x: int,
)
    requires
        1 <= height == line.len(),
        1 <= width,
        1 <= height2,
        1 <= width2,
        forall|i: int| 0 <= i < height ==> 0 <= #[trigger] line[i] <= top,
        forall|v: int, u: int|
            0 <= v < height && 0 <= u < width ==> s[#[trigger] cell(stride, v, u)].level()
                == line[v],
        0 <= y < height2,
        0 <= x < width2,
    ensures
        plane_sample(s, stride, height, width, height2, width2, top, y, x) == resized(
            line,
            height2,
            top,
        )[y],
{
    let column = column_levels(s, stride, height, width, width2, top, x);
    assert forall|v: int| 0 <= v < height implies #[trigger] column[v] == line[v] by {
        let row = row_levels(s, stride, width, v);
        assert forall|u: int| 0 <= u < width implies #[trigger] row[u] == line[v] by {
            assert(s[cell(stride, v, u)].level() == line[v]);
        }
        law_flat_line_stays_flat(row, line[v], width2, top);
    }
    assert(column =~= line);
}

/// The more a line shrinks, the more it is smoothed: a lone sample at the very
/// place of an output sample keeps all of its height where the line does not
/// shrink, seven eighths of it down to 13/16 of the length, three quarters down
/// to 11/16, five eighths down to 9/16, and half below. Rounding adds up over
/// the line, so this is stated of its first part.
pub proof fn law_lone_sample_keeps_its_part(len: int, out_len: int, top: int, x: int, i: int, v: int)
    requires
        len != out_len,
        (len + 1) / 2 < out_len,
        0 <= x < out_len,
        x <= 253,
        3 <= i,
        i + 4 < len,
        0 <= v <= top,
        (2 * i + 1) * out_len == (2 * x + 1) * len,
    ensures
        ({
            let kept = if out_len >= len {
                8int
            } else if 16 * out_len >= 13 * len {
                7
            } else if 16 * out_len >= 11 * len {
                6
            } else if 16 * out_len >= 9 * len {
                5
            } else {
                4
            };
            resized(lone(len, i, v), out_len, top)[x] == (kept * v + 4) / 8
        }),
{
    let a = lone(len, i, v);
    assert(halvings(len, out_len) == 0);
    let pos = interp_pos(len, out_len, x);
    let bank = bank_for(len, out_len);
    lemma_position(len, out_len, x);
    assert(16384 * ((2 * x + 1) * len - out_len) == 2 * out_len * (16384 * i)) by (nonlinear_arith)
        requires
            (2 * i + 1) * out_len == (2 * x + 1) * len,
    ;
    assert((x + 1) * out_len <= 254 * out_len) by (nonlinear_arith)
        requires
            x <= 253,
            out_len >= 1,
    ;
    assert(0 <= pos - 16384 * i <= 255) by (nonlinear_arith)
        requires
            2 * out_len <= 2 * out_len * pos - 2 * out_len * (16384 * i) <= 510 * out_len,
            out_len >= 1,
    ;
    assert(pos / 16384 == i && (pos / 256) % 64 == 0);
    crate::resize_filters::law_middle_taps();
    lemma_lone_tap(a, bank, 0, i, 3, v);
    let f = bank_tap(bank, 0, 3);
    assert(resized(a, out_len, top)[x] == interp_sample(a, out_len, top, x));
    assert(f == 64 || f == 80 || f == 96 || f == 112 || f == 128);
    let k = f / 16;
    assert(f * v == 16 * (k * v)) by (nonlinear_arith)
        requires
            f == 16 * k,
    ;
    assert(0 <= k * v <= 8 * v) by (nonlinear_arith)
        requires
            0 <= k <= 8,
            0 <= v,
    ;
}

} // verus!
