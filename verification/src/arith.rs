//! Powers of two and the shifts that stand for dividing by them.

use vstd::prelude::*;

verus! {

/// Two to the `n`.
pub open spec fn pow2i(n: int) -> int
    decreases n,
{
    if n <= 0 {
        1
    } else {
        2 * pow2i(n - 1)
    }
}

pub proof fn lemma_pow2i_pos(n: int)
    ensures
        pow2i(n) >= 1,
    decreases n,
{
    if n > 0 {
        lemma_pow2i_pos(n - 1);
    }
}

pub proof fn lemma_pow2i_is_pow2(n: nat)
    ensures
        pow2i(n as int) == vstd::arithmetic::power2::pow2(n),
    decreases n,
{
    if n == 0 {
        vstd::arithmetic::power2::lemma2_to64();
    } else {
        lemma_pow2i_is_pow2((n - 1) as nat);
        vstd::arithmetic::power2::lemma_pow2_unfold(n);
    }
}

pub proof fn lemma_pow2i_mono(m: int, n: int)
    requires
        0 <= m <= n,
    ensures
        pow2i(m) <= pow2i(n),
    decreases n - m,
{
    lemma_pow2i_pos(m);
    if m < n {
        lemma_pow2i_mono(m, n - 1);
        lemma_pow2i_pos(n - 1);
    }
}

pub proof fn lemma_pow2i_values()
    ensures
        pow2i(0) == 1,
        pow2i(1) == 2,
        pow2i(2) == 4,
        pow2i(3) == 8,
        pow2i(4) == 16,
        pow2i(5) == 32,
        pow2i(6) == 64,
        pow2i(7) == 128,
        pow2i(8) == 256,
{
    reveal_with_fuel(pow2i, 9);
}

/// Halving `n` times is dividing by `2^n`, rounding down.
pub proof fn lemma_i64_shr_is_div(x: i64, n: u32)
    requires
        n < 64,
    ensures
        x >> n == x as int / pow2i(n as int),
    decreases n,
{
    if n == 0 {
        assert(x >> 0u32 == x) by (bit_vector);
    } else {
        let m: u32 = (n - 1) as u32;
        lemma_i64_shr_is_div(x, m);
        lemma_pow2i_pos(m as int);
        assert(x >> n == (x >> m) / 2) by (bit_vector)
            requires
                n == m + 1,
                n < 64,
        ;
        let p = pow2i(m as int);
        let q = x as int / p;
        assert(q / 2 == x as int / (2 * p)) by (nonlinear_arith)
            requires
                p >= 1,
                q == x as int / p,
        ;
    }
}

/// `x / 2^n`, rounded down.
pub fn shr_i64(x: i64, n: u32) -> (r: i64)
    requires
        n < 64,
    ensures
        r == x as int / pow2i(n as int),
{
    proof {
        lemma_i64_shr_is_div(x, n);
    }
    x >> n
}

/// The larger and the smaller of two numbers.
pub open spec fn max_int(a: int, b: int) -> int {
    if a < b {
        b
    } else {
        a
    }
}

pub open spec fn min_int(a: int, b: int) -> int {
    if a < b {
        a
    } else {
        b
    }
}

/// `a / b` rounded toward zero.
pub open spec fn trunc_div(a: int, b: int) -> int {
    if a < 0 {
        -((-a) / b)
    } else {
        a / b
    }
}

} // verus!
