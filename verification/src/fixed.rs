//! Fixed-point base-2 logarithms of rationals `n / c` with `1 <= c <= n`.
//!
//! One bit is `SCALE` (= 2^16) units. The integer part of the logarithm is
//! exact; sixteen binary fraction digits are extracted by the classic
//! square-and-renormalize method over a 32-bit fixed-point mantissa. On exact
//! powers of two the result is exact, which the lemmas at the end show.

use vstd::prelude::*;

verus! {

use vstd::arithmetic::power2::*;
use vstd::arithmetic::div_mod::*;

/// One bit of entropy, in fixed-point units.
pub const SCALE: u64 = 65536;

/// The largest value `log2_fix` can return: `63 * SCALE + (SCALE - 1)`.
pub const LOG_MAX: u64 = 4194303;

/// How often `c` can be doubled while staying at most `n`:
/// the exact integer part of `log2(n / c)`.
pub open spec fn norm_k(n: nat, c: nat) -> nat
    recommends
        1 <= c <= n,
    decreases n - c,
        when 1 <= c
{
    if 2 * c <= n {
        1 + norm_k(n, 2 * c)
    } else {
        0
    }
}

/// One squaring step on a mantissa in [2^32, 2^33).
pub open spec fn step_x(x: nat) -> nat {
    let y = (x * x) / 0x1_0000_0000;
    if y >= 0x2_0000_0000 {
        y / 2
    } else {
        y
    }
}

/// The fraction bit produced by one squaring step.
pub open spec fn step_bit(x: nat) -> nat {
    if (x * x) / 0x1_0000_0000 >= 0x2_0000_0000 {
        1
    } else {
        0
    }
}

/// The mantissa after `i` squaring steps.
pub open spec fn iter_x(x: nat, i: nat) -> nat
    decreases i,
{
    if i == 0 {
        x
    } else {
        step_x(iter_x(x, (i - 1) as nat))
    }
}

/// The fraction accumulated over `i` squaring steps.
pub open spec fn iter_frac(x: nat, i: nat) -> nat
    decreases i,
{
    if i == 0 {
        0
    } else {
        2 * iter_frac(x, (i - 1) as nat) + step_bit(iter_x(x, (i - 1) as nat))
    }
}

/// `SCALE * log2(n / c)` in fixed point: exact integer part, sixteen
/// binary fraction digits.
pub open spec fn spec_log2_fix(n: nat, c: nat) -> nat
    recommends
        1 <= c <= n,
{
    let k = norm_k(n, c);
    let c2 = c * pow2(k);
    let x0 = (n * 0x1_0000_0000) / c2;
    k * 65536 + iter_frac(x0, 16)
}

pub proof fn lemma_iter_frac_bound(x: nat, i: nat)
    ensures
        iter_frac(x, i) < pow2(i),
    decreases i,
{
    if i == 0 {
        lemma2_to64();
    } else {
        lemma_iter_frac_bound(x, (i - 1) as nat);
        lemma_pow2_unfold(i);
    }
}

pub proof fn lemma_norm_k_le(n: nat, c: nat)
    requires
        1 <= c <= n,
        n < pow2(64),
    ensures
        norm_k(n, c) <= 63,
        c * pow2(norm_k(n, c)) <= n,
    decreases n - c,
{
    let k = norm_k(n, c);
    if 2 * c <= n {
        lemma_norm_k_le(n, 2 * c);
        let k2 = norm_k(n, 2 * c);
        assert(k == 1 + k2);
        lemma_pow2_unfold(k);
        assert(c * (2 * pow2(k2)) == (2 * c) * pow2(k2)) by (nonlinear_arith);
        // norm_k(n, c) <= 63: pow2(k) <= c * pow2(k) <= n < pow2(64)
        assert(pow2(k) <= c * pow2(k)) by (nonlinear_arith)
            requires
                c >= 1,
                pow2(k) >= 0,
        ;
        if k >= 64 {
            if k > 64 {
                lemma_pow2_strictly_increases(64, k);
            }
            assert(false);
        }
    } else {
        lemma2_to64();
        assert(pow2(0) == 1);
    }
}

pub proof fn lemma_log2_fix_bound(n: nat, c: nat)
    requires
        1 <= c <= n,
        n < pow2(64),
    ensures
        spec_log2_fix(n, c) <= LOG_MAX,
{
    lemma_norm_k_le(n, c);
    let k = norm_k(n, c);
    let c2 = c * pow2(k);
    let x0 = (n * 0x1_0000_0000) / c2;
    lemma_iter_frac_bound(x0, 16);
    lemma2_to64();
    assert(iter_frac(x0, 16) <= 65535);
    assert(k * 65536 + iter_frac(x0, 16) <= 4194303) by (nonlinear_arith)
        requires
            k <= 63,
            iter_frac(x0, 16) <= 65535,
    ;
    assert(spec_log2_fix(n, c) == k * 65536 + iter_frac(x0, 16));
}

/// A ratio of at least two has at least one bit of logarithm.
pub proof fn lemma_log2_fix_lower(n: nat, c: nat)
    requires
        1 <= c,
        2 * c <= n,
    ensures
        spec_log2_fix(n, c) >= 65536,
{
    assert(norm_k(n, c) == 1 + norm_k(n, 2 * c));
    let k = norm_k(n, c);
    let c2 = c * pow2(k);
    let x0 = (n * 0x1_0000_0000) / c2;
    assert(spec_log2_fix(n, c) == k * 65536 + iter_frac(x0, 16));
    assert(k * 65536 + iter_frac(x0, 16) >= 65536) by (nonlinear_arith)
        requires
            k >= 1,
    ;
}

/// A mantissa of exactly 1.0 stays 1.0 and yields no fraction bits.
pub proof fn lemma_iter_one(i: nat)
    ensures
        iter_x(0x1_0000_0000, i) == 0x1_0000_0000,
        iter_frac(0x1_0000_0000, i) == 0,
    decreases i,
{
    if i == 0 {
    } else {
        lemma_iter_one((i - 1) as nat);
        assert(0x1_0000_0000nat * 0x1_0000_0000nat == 0x1_0000_0000_0000_0000nat) by (nonlinear_arith);
        lemma_div_multiples_vanish(0x1_0000_0000, 0x1_0000_0000);
        assert(step_x(0x1_0000_0000) == 0x1_0000_0000);
        assert(step_bit(0x1_0000_0000) == 0);
    }
}

/// The logarithm of `c / c` is exactly zero.
pub proof fn lemma_log2_fix_self(c: nat)
    requires
        1 <= c,
    ensures
        spec_log2_fix(c, c) == 0,
{
    assert(norm_k(c, c) == 0);
    lemma2_to64();
    assert(c * pow2(0) == c);
    lemma_div_multiples_vanish(0x1_0000_0000, c as int);
    assert((c * 0x1_0000_0000) / c == 0x1_0000_0000);
    lemma_iter_one(16);
}

/// The logarithm of `2c / c` is exactly one bit.
pub proof fn lemma_log2_fix_double(c: nat)
    requires
        1 <= c,
    ensures
        spec_log2_fix(2 * c, c) == 65536,
{
    assert(norm_k(2 * c, c) == 1) by {
        assert(norm_k(2 * c, 2 * c) == 0);
    }
    lemma2_to64();
    assert(c * pow2(1) == 2 * c);
    lemma_div_multiples_vanish(0x1_0000_0000, (2 * c) as int);
    assert(((2 * c) * 0x1_0000_0000) / (2 * c) == 0x1_0000_0000);
    lemma_iter_one(16);
}

/// `a / d >= b` whenever `a >= b * d`.
proof fn lemma_div_at_least(a: int, b: int, d: int)
    requires
        d >= 1,
        a >= b * d,
    ensures
        a / d >= b,
{
    lemma_div_is_ordered(b * d, a, d);
    lemma_div_multiples_vanish(b, d);
    assert(b * d == d * b) by (nonlinear_arith);
}

/// Fixed-point base-2 logarithm of `n / c`.
pub fn log2_fix(n: u64, c: u64) -> (r: u64)
    requires
        1 <= c <= n,
    ensures
        r == spec_log2_fix(n as nat, c as nat),
        r <= LOG_MAX,
{
    proof {
        lemma2_to64();
        assert(n < pow2(64));
    }
    let mut k: u64 = 0;
    let mut c2: u64 = c;
    while c2 <= n / 2
        invariant
            1 <= c <= n,
            c <= c2 <= n,
            n < pow2(64),
            (c as nat) * pow2(k as nat) == c2 as nat,
            norm_k(n as nat, c as nat) == k + norm_k(n as nat, c2 as nat),
            k <= 63,
        decreases n - c2,
    {
        proof {
            lemma_fundamental_div_mod(n as int, 2);
            assert(2 * c2 <= n);
            lemma_pow2_unfold((k + 1) as nat);
            assert((c as nat) * (2 * pow2(k as nat)) == 2 * ((c as nat) * pow2(k as nat)))
                by (nonlinear_arith);
            assert(norm_k(n as nat, c2 as nat) == 1 + norm_k(n as nat, 2 * (c2 as nat)));
            assert(pow2((k + 1) as nat) <= 2 * (c2 as nat)) by {
                assert(pow2((k + 1) as nat) == 2 * pow2(k as nat));
                assert(pow2(k as nat) <= (c as nat) * pow2(k as nat)) by (nonlinear_arith)
                    requires
                        c >= 1,
                        pow2(k as nat) >= 0,
                ;
            }
            if k + 1 >= 64 {
                if k + 1 > 64 {
                    lemma_pow2_strictly_increases(64, (k + 1) as nat);
                }
                assert(pow2(64) <= pow2((k + 1) as nat));
                assert(false);
            }
        }
        c2 = c2 * 2;
        k = k + 1;
    }
    proof {
        // Loop exit: 2 * c2 > n, so no further doubling is counted.
        if 2 * c2 <= n {
            lemma_div_is_ordered(2 * c2 as int, n as int, 2);
            lemma_div_multiples_vanish(c2 as int, 2);
            assert(2 * (c2 as int) == (c2 as int) * 2) by (nonlinear_arith);
            assert(false);
        }
        assert(norm_k(n as nat, c2 as nat) == 0);
    }
    let x0_wide: u128 = ((n as u128) * 0x1_0000_0000) / (c2 as u128);
    proof {
        assert((n as nat) * 0x1_0000_0000 < (c2 as nat) * 0x2_0000_0000) by (nonlinear_arith)
            requires
                (n as nat) < 2 * (c2 as nat),
        ;
        assert((c2 as int) * 0x2_0000_0000 == 0x2_0000_0000 * (c2 as int)) by (nonlinear_arith);
        lemma_multiply_divide_lt((n as int) * 0x1_0000_0000, c2 as int, 0x2_0000_0000);
        assert((n as nat) * 0x1_0000_0000 >= 0x1_0000_0000 * (c2 as nat)) by (nonlinear_arith)
            requires
                n as nat >= c2 as nat,
        ;
        lemma_div_at_least((n as int) * 0x1_0000_0000, 0x1_0000_0000, c2 as int);
    }
    let mut x: u64 = x0_wide as u64;
    let ghost x0: nat = x as nat;
    let mut frac: u64 = 0;
    let mut i: u64 = 0;
    while i < 16
        invariant
            0x1_0000_0000 <= x < 0x2_0000_0000,
            i <= 16,
            x as nat == iter_x(x0, i as nat),
            frac as nat == iter_frac(x0, i as nat),
            frac < pow2(i as nat),
        decreases 16 - i,
    {
        proof {
            lemma2_to64();
            assert((x as nat) * (x as nat) < 0x4_0000_0000_0000_0000) by (nonlinear_arith)
                requires
                    (x as nat) < 0x2_0000_0000,
            ;
            assert((x as nat) * (x as nat) >= 0x1_0000_0000_0000_0000) by (nonlinear_arith)
                requires
                    (x as nat) >= 0x1_0000_0000,
            ;
            lemma_div_at_least((x as int) * (x as int), 0x1_0000_0000, 0x1_0000_0000);
            lemma_multiply_divide_lt((x as int) * (x as int), 0x1_0000_0000, 0x4_0000_0000);
        }
        let prod: u128 = (x as u128) * (x as u128);
        let y_wide: u128 = prod / 0x1_0000_0000;
        let mut y: u64 = y_wide as u64;
        proof {
            assert(y as nat == ((x as nat) * (x as nat)) / 0x1_0000_0000);
            lemma_pow2_unfold((i + 1) as nat);
        }
        frac = frac * 2;
        if y >= 0x2_0000_0000 {
            y = y / 2;
            frac = frac + 1;
        }
        x = y;
        i = i + 1;
    }
    proof {
        lemma_iter_frac_bound(x0, 16);
        lemma2_to64();
        assert((k as nat) * 65536 <= 63 * 65536) by (nonlinear_arith)
            requires
                k as nat <= 63,
        ;
    }
    k * 65536 + frac
}

} // verus!
