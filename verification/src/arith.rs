//! Small exact integer helpers shared by the filters and detectors:
//! rounded division, integer square root and popcount.

use vstd::prelude::*;
use vstd::arithmetic::div_mod::{lemma_div_is_ordered, lemma_div_multiples_vanish_fancy, lemma_div_pos_is_pos};
use vstd::arithmetic::power2::{pow2, lemma_pow2_unfold, lemma2_to64};

verus! {

/// `round(n / d)` for non-negative `n`, halves rounded up.
pub open spec fn div_round_nn(n: int, d: int) -> int
    recommends
        n >= 0,
        d > 0,
{
    (2 * n + d) / (2 * d)
}

/// The absolute value.
pub open spec fn absi(v: int) -> int {
    if v >= 0 {
        v
    } else {
        -v
    }
}

/// Division truncating toward zero, as the machine's signed division does.
pub open spec fn div_trunc(n: int, d: int) -> int
    recommends
        d > 0,
{
    if n >= 0 {
        n / d
    } else {
        -((-n) / d)
    }
}

/// `round(n / d)` with halves rounded away from zero.
pub open spec fn div_round(n: int, d: int) -> int
    recommends
        d > 0,
{
    if n >= 0 {
        div_round_nn(n, d)
    } else {
        -div_round_nn(-n, d)
    }
}

/// Rounded division is monotone in the numerator.
pub proof fn lemma_div_round_nn_ordered(a: int, b: int, d: int)
    requires
        0 <= a <= b,
        d > 0,
    ensures
        div_round_nn(a, d) <= div_round_nn(b, d),
{
    lemma_div_is_ordered(2 * a + d, 2 * b + d, 2 * d);
}

/// If `n <= k * d` then `round(n / d) <= k`; rounded division never overshoots
/// a bound that holds of the exact quotient.
pub proof fn lemma_div_round_nn_upper(n: int, d: int, k: int)
    requires
        0 <= n <= k * d,
        d > 0,
        k >= 0,
    ensures
        0 <= div_round_nn(n, d) <= k,
{
    lemma_div_round_nn_ordered(n, k * d, d);
    // div_round_nn(k * d, d) == (2 * k * d + d) / (2 * d) == k (remainder d < 2 * d)
    assert(2 * (k * d) + d == (2 * d) * k + d) by (nonlinear_arith);
    lemma_div_multiples_vanish_fancy(k, d, 2 * d);
    lemma_div_pos_is_pos(2 * n + d, 2 * d);
}

/// Rounded division of non-negative numerators, with halves rounded up:
/// `r == div_round_nn(n, d)`.
pub fn div_round_nn_exec(n: u64, d: u64) -> (r: u64)
    requires
        0 < d < 0x4000_0000_0000_0000,
        n < 0x4000_0000_0000_0000,
    ensures
        r == div_round_nn(n as int, d as int),
        r <= n,
{
    let r = (2 * n + d) / (2 * d);
    proof {
        assert(n as int <= n * d) by (nonlinear_arith)
            requires
                d >= 1,
                n >= 0,
        ;
        lemma_div_round_nn_upper(n as int, d as int, n as int);
    }
    r
}

/// Rounded division for signed numerators, halves rounded away from zero:
/// `r == div_round(n, d)`.
pub fn div_round_exec(n: i64, d: i64) -> (r: i64)
    requires
        0 < d < 0x2000_0000_0000_0000,
        -0x2000_0000_0000_0000 < n < 0x2000_0000_0000_0000,
    ensures
        r == div_round(n as int, d as int),
        n >= 0 ==> 0 <= r <= n,
        n < 0 ==> n <= r <= 0,
{
    if n >= 0 {
        let r = (2 * n + d) / (2 * d);
        proof {
            assert(n as int <= n * d) by (nonlinear_arith)
                requires
                    d >= 1,
                    n >= 0,
            ;
            lemma_div_round_nn_upper(n as int, d as int, n as int);
        }
        r
    } else {
        let m = -n;
        let r = (2 * m + d) / (2 * d);
        proof {
            assert(m as int <= m * d) by (nonlinear_arith)
                requires
                    d >= 1,
                    m >= 0,
            ;
            lemma_div_round_nn_upper(m as int, d as int, m as int);
        }
        -r
    }
}

/// The integer square root: the largest `r` with `r * r <= n`.
pub open spec fn is_isqrt(n: int, r: int) -> bool {
    r >= 0 && r * r <= n < (r + 1) * (r + 1)
}

/// Whether `(r + 1) * (r + 1) <= n`, computed without overflow.
fn next_square_fits(r: u64, n: u64) -> (b: bool)
    requires
        r < 0x1_0000_0000,
    ensures
        b == ((r + 1) * (r + 1) <= n),
{
    let a = (r + 1) as u128;
    proof {
        assert(a * a <= 0x1_0000_0000_0000_0000) by (nonlinear_arith)
            requires
                0 < a <= 0x1_0000_0000,
        ;
    }
    let p = a * a;
    p <= (n as u128)
}

/// Computes the integer square root of `n`.
pub fn isqrt(n: u64) -> (r: u64)
    requires
        n < 0x4000_0000_0000_0000,
    ensures
        is_isqrt(n as int, r as int),
        r <= n,
{
    let mut r: u64 = 0;
    while next_square_fits(r, n)
        invariant
            n < 0x4000_0000_0000_0000,
            r * r <= n,
            r <= n,
            r <= 0x8000_0000,
        decreases n - r,
    {
        proof {
            assert((r + 1) * (r + 1) <= n ==> r + 1 <= 0x8000_0000) by (nonlinear_arith)
                requires
                    n < 0x4000_0000_0000_0000,
            ;
            assert(r + 1 <= (r + 1) * (r + 1)) by (nonlinear_arith);
        }
        r = r + 1;
    }
    r
}

/// `i == q * d + r` with `0 <= r < d` pins down quotient and remainder.
pub proof fn lemma_decompose(i: int, d: int, q: int, r: int)
    requires
        d > 0,
        0 <= r < d,
        i == q * d + r,
    ensures
        i / d == q,
        i % d == r,
{
    vstd::arithmetic::div_mod::lemma_fundamental_div_mod_converse_div(i, d, q, r);
    vstd::arithmetic::div_mod::lemma_fundamental_div_mod_converse_mod(i, d, q, r);
}

/// The number of set bits of a byte, counted from the low end.
pub open spec fn popcount8(v: u8) -> int
    decreases v,
{
    if v == 0 {
        0
    } else {
        (v % 2) + popcount8(v / 2)
    }
}

/// A popcount is never negative.
pub proof fn lemma_popcount8_nonneg(v: u8)
    ensures
        popcount8(v) >= 0,
    decreases v,
{
    if v != 0 {
        lemma_popcount8_nonneg(v / 2);
    }
}

/// A value below `2^k` has popcount at most `k`.
proof fn lemma_popcount8_le(v: u8, k: nat)
    requires
        v < pow2(k),
    ensures
        popcount8(v) <= k,
    decreases v,
{
    if v != 0 {
        assert(k >= 1) by {
            lemma2_to64();
        }
        lemma_pow2_unfold(k);
        let p = pow2((k - 1) as nat) as int;
        assert(v <= 2 * p - 1);
        lemma_div_is_ordered(v as int, 2 * p - 1, 2);
        assert(2 * p - 1 == 2 * (p - 1) + 1);
        lemma_div_multiples_vanish_fancy(p - 1, 1, 2);
        lemma_popcount8_le(v / 2, (k - 1) as nat);
    }
}

/// A byte's popcount is between 0 and 8.
pub proof fn lemma_popcount8_bound(v: u8)
    ensures
        0 <= popcount8(v) <= 8,
{
    lemma_popcount8_nonneg(v);
    assert(v < pow2(8)) by {
        lemma2_to64();
    }
    lemma_popcount8_le(v, 8);
}

/// Counts the set bits of a byte.
pub fn popcount8_exec(v: u8) -> (r: u32)
    ensures
        r == popcount8(v),
        r <= 8,
{
    let mut x = v;
    let mut r: u32 = 0;
    proof {
        lemma_popcount8_bound(v);
    }
    while x != 0
        invariant
            r + popcount8(x) == popcount8(v),
            popcount8(v) <= 8,
            r <= 8,
        decreases x,
    {
        proof {
            lemma_popcount8_nonneg(x / 2);
        }
        r = r + (x % 2) as u32;
        x = x / 2;
    }
    proof {
        lemma_popcount8_nonneg(v);
    }
    r
}

} // verus!
