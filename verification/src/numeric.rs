//! Fixed-point arithmetic for the selection policy.
//!
//! Scores are carried as signed 32.32 fixed-point numbers: the integer
//! `v` stands for the real number `v / 2^32`.  The module provides an
//! integer square root, a base-two logarithm in fixed point, a natural
//! logarithm derived from it, and the upper-confidence-bound score
//! built from those pieces.

use vstd::prelude::*;
use vstd::arithmetic::power2::*;

verus! {

/// The fixed-point representation of 1 (2^32).
pub const FIXED_ONE: u64 = 4294967296;

/// ln(2) * 2^32, rounded to the nearest integer.
pub const LN2_FIXED: u64 = 2977044472;

/// The exploration constant 2 * sqrt(2), times 2^32, rounded to the
/// nearest integer.
pub const UCB_C_FIXED: u64 = 12148002000;

/// `r` is the floor of the square root of `x`.
pub open spec fn is_sqrt_floor(x: int, r: int) -> bool {
    &&& 0 <= r
    &&& r * r <= x
    &&& (r + 1) * (r + 1) > x
}

/// The floor square root is unique.
pub proof fn lemma_sqrt_floor_unique(x: int, r1: int, r2: int)
    requires
        is_sqrt_floor(x, r1),
        is_sqrt_floor(x, r2),
    ensures
        r1 == r2,
{
    if r1 < r2 {
        assert((r1 + 1) * (r1 + 1) <= r2 * r2) by (nonlinear_arith)
            requires 0 <= r1, 0 <= r2, r1 < r2;
    }
    if r2 < r1 {
        assert((r2 + 1) * (r2 + 1) <= r1 * r1) by (nonlinear_arith)
            requires 0 <= r1, 0 <= r2, r2 < r1;
    }
}

/// Floor of the square root, by binary search.
pub fn isqrt(x: u128) -> (r: u128)
    ensures
        is_sqrt_floor(x as int, r as int),
{
    let mut lo: u128 = 0;
    let mut hi: u128 = 18446744073709551616u128;
    proof {
        assert((hi as int) * (hi as int) > x as int) by (nonlinear_arith)
            requires hi == 18446744073709551616u128, x <= u128::MAX;
    }
    while lo + 1 < hi
        invariant
            lo < hi,
            hi <= 18446744073709551616u128,
            (lo as int) * (lo as int) <= x as int,
            (hi as int) * (hi as int) > x as int,
        decreases hi - lo,
    {
        let mid = lo + (hi - lo) / 2;
        proof {
            assert((mid as int) * (mid as int) < 0x100000000000000000000000000000000int)
                by (nonlinear_arith)
                requires mid < 18446744073709551616u128;
        }
        if mid * mid <= x {
            lo = mid;
        } else {
            hi = mid;
        }
    }
    lo
}

/// The most-significant-bit loop: halves `t` and `m` until `t` is 1,
/// counting the steps in `e`; returns the final `(t, m, e)`.
pub open spec fn spec_msb_norm(t: nat, m: nat, e: nat) -> (nat, nat, nat)
    decreases t,
{
    if t >= 2 {
        spec_msb_norm(t / 2, m / 2, e + 1)
    } else {
        (t, m, e)
    }
}

/// The fraction loop of the base-two logarithm: squares the mantissa
/// `i` times, extracting one bit of the result each round.
pub open spec fn spec_frac_loop(m: nat, f: nat, i: nat) -> nat
    decreases i,
{
    if i == 0 {
        f
    } else {
        let m2 = (m * m) / 4294967296;
        if m2 >= 8589934592 {
            spec_frac_loop(m2 / 2, 2 * f + 1, (i - 1) as nat)
        } else {
            spec_frac_loop(m2, 2 * f, (i - 1) as nat)
        }
    }
}

/// log2(n) in 32.32 fixed point: the exponent of the leading bit,
/// followed by 32 bits of fraction from the squaring loop.
pub open spec fn spec_log2_fixed(n: nat) -> nat {
    if n <= 1 {
        0
    } else {
        let (t, m, e) = spec_msb_norm(n, n * 4294967296, 0);
        e * 4294967296 + spec_frac_loop(m, 0, 32)
    }
}

/// ln(n) in 32.32 fixed point, as log2(n) * ln(2).
pub open spec fn spec_ln_fixed(n: nat) -> nat {
    (spec_log2_fixed(n) * 2977044472) / 4294967296
}

/// Base-two logarithm of `n` in 32.32 fixed point.
pub fn log2_fixed(n: u64) -> (r: u64)
    requires
        n >= 1,
    ensures
        r as nat == spec_log2_fixed(n as nat),
        r < 274877906944u64,
{
    if n == 1 {
        return 0;
    }
    let mut t: u64 = n;
    let mut m: u128 = (n as u128) * 4294967296u128;
    let mut e: u64 = 0;
    proof {
        lemma2_to64();
        lemma2_to64_rest();
    }
    while t >= 2
        invariant
            1 <= t,
            e <= 63,
            (t as nat) * pow2(e as nat) <= n as nat,
            m < ((t as nat) + 1) * 4294967296,
            spec_msb_norm(n as nat, (n as nat) * 4294967296, 0) == spec_msb_norm(
                t as nat,
                m as nat,
                e as nat,
            ),
        decreases t,
    {
        proof {
            // e stays below 64: pow2(e + 1) <= t * pow2(e) <= n < pow2(64)
            lemma_pow2_pos(e as nat);
            assert(2 * pow2(e as nat) <= (t as nat) * pow2(e as nat)) by (nonlinear_arith)
                requires t >= 2, pow2(e as nat) > 0;
            lemma_pow2_unfold((e + 1) as nat);
            assert(pow2((e + 1) as nat) == 2 * pow2(e as nat));
            if e + 1 > 63 {
                assert(pow2(64) <= n as nat);
                assert(pow2(64) == 0x10000000000000000) by {
                    lemma2_to64_rest();
                }
                assert(false);
            }
            assert(((t / 2) as nat) * pow2((e + 1) as nat) <= (t as nat) * pow2(e as nat))
                by (nonlinear_arith)
                requires t >= 2, pow2((e + 1) as nat) == 2 * pow2(e as nat), pow2(e as nat) > 0;
            assert(m / 2 < (((t / 2) as nat) + 1) * 4294967296) by (nonlinear_arith)
                requires m < ((t as nat) + 1) * 4294967296, t >= 2;
        }
        t = t / 2;
        m = m / 2;
        e = e + 1;
    }
    let ghost m_start: nat = m as nat;
    let mut f: u64 = 0;
    let mut i: u64 = 0;
    while i < 32
        invariant
            i <= 32,
            m < 8589934592,
            f < pow2(i as nat),
            spec_frac_loop(m_start, 0, 32) == spec_frac_loop(m as nat, f as nat, (32 - i) as nat),
        decreases 32 - i,
    {
        proof {
            lemma2_to64();
            assert((m as int) * (m as int) < 0x100000000000000000int) by (nonlinear_arith)
                requires m < 8589934592;
        }
        let m2: u128 = (m * m) / 4294967296u128;
        proof {
            assert((m2 as nat) == ((m as nat) * (m as nat)) / 4294967296);
            assert(m2 < 17179869184u128) by (nonlinear_arith)
                requires m < 8589934592, m2 as nat == ((m as nat) * (m as nat)) / 4294967296;
            lemma_pow2_unfold((i + 1) as nat);
            assert(pow2((i + 1) as nat) == 2 * pow2(i as nat));
        }
        if m2 >= 8589934592u128 {
            m = m2 / 2;
            f = 2 * f + 1;
        } else {
            m = m2;
            f = 2 * f;
        }
        i = i + 1;
    }
    proof {
        lemma2_to64();
        assert(pow2(32) == 4294967296) by {
            lemma2_to64_rest();
        }
        assert(f < 4294967296);
        assert((e as int) * 4294967296 <= 63 * 4294967296) by (nonlinear_arith)
            requires e <= 63;
    }
    e * 4294967296u64 + f
}

/// Natural logarithm of `n` in 32.32 fixed point.
pub fn ln_fixed(n: u64) -> (r: u64)
    requires
        n >= 1,
    ensures
        r as nat == spec_ln_fixed(n as nat),
        r < 190530846208u64,
{
    let lg = log2_fixed(n);
    proof {
        assert((lg as int) * 2977044472 < 274877906944int * 2977044472) by (nonlinear_arith)
            requires lg < 274877906944u64;
        assert(((lg as nat) * 2977044472) / 4294967296 < 190530846208) by (nonlinear_arith)
            requires (lg as nat) * 2977044472 < 274877906944nat * 2977044472;
    }
    (((lg as u128) * 2977044472u128) / 4294967296u128) as u64
}

/// The signed win-rate part of the score: (wins - losses) / visits in
/// 32.32 fixed point, truncated toward zero.
pub open spec fn spec_ratio(wins: nat, losses: nat, visits: nat) -> int {
    if wins >= losses {
        (((wins - losses) * 4294967296) / (visits as int))
    } else {
        -(((losses - wins) * 4294967296) / (visits as int))
    }
}

/// `v` is the fixed-point selection score for a child with the given
/// statistics under a parent with `parent` visits: the win rate plus
/// the exploration bonus 2*sqrt(2)*sqrt(ln(parent)/visits).
/// The argument handed to the square root inside the score:
/// ln(parent) / visits, in 64.64 fixed point.
pub open spec fn spec_ucb_sqrt_arg(visits: nat, parent: nat) -> int {
    (spec_ln_fixed(parent) * 4294967296) as int / (visits as int)
}

pub open spec fn spec_ucb(wins: nat, losses: nat, visits: nat, parent: nat, v: int) -> bool {
    exists|s: int|
        #[trigger] is_sqrt_floor(spec_ucb_sqrt_arg(visits, parent), s) && v == spec_ratio(
            wins,
            losses,
            visits,
        ) + (12148002000 * s) / 4294967296
}

/// A floor square root exists for every non-negative argument.
pub proof fn lemma_sqrt_floor_exists(x: int)
    requires
        x >= 0,
    ensures
        exists|r: int| is_sqrt_floor(x, r),
    decreases x,
{
    if x == 0 {
        assert(is_sqrt_floor(0, 0));
    } else {
        lemma_sqrt_floor_exists(x - 1);
        let y = x - 1;
        let r = choose|r: int| is_sqrt_floor(y, r);
        if (r + 1) * (r + 1) > x {
            assert(is_sqrt_floor(x, r));
        } else {
            assert(((r + 1) + 1) * ((r + 1) + 1) > x) by (nonlinear_arith)
                requires 0 <= r, (r + 1) * (r + 1) > x - 1, (r + 1) * (r + 1) <= x;
            assert(is_sqrt_floor(x, r + 1));
        }
    }
}

/// The score value is a function of the statistics.
pub proof fn lemma_ucb_unique(wins: nat, losses: nat, visits: nat, parent: nat, v1: int, v2: int)
    requires
        spec_ucb(wins, losses, visits, parent, v1),
        spec_ucb(wins, losses, visits, parent, v2),
    ensures
        v1 == v2,
{
    let s1 = choose|s: int|
        is_sqrt_floor(spec_ucb_sqrt_arg(visits, parent), s) && v1 == spec_ratio(
            wins,
            losses,
            visits,
        ) + (12148002000 * s) / 4294967296;
    let s2 = choose|s: int|
        is_sqrt_floor(spec_ucb_sqrt_arg(visits, parent), s) && v2 == spec_ratio(
            wins,
            losses,
            visits,
        ) + (12148002000 * s) / 4294967296;
    lemma_sqrt_floor_unique(spec_ucb_sqrt_arg(visits, parent), s1, s2);
}

/// The fixed-point selection score as a value rather than a relation.
pub open spec fn spec_ucb_val(wins: nat, losses: nat, visits: nat, parent: nat) -> int {
    choose|v: int| spec_ucb(wins, losses, visits, parent, v)
}

/// Any value meeting the score relation is the score value.
pub proof fn lemma_ucb_val(wins: nat, losses: nat, visits: nat, parent: nat, v: int)
    requires
        spec_ucb(wins, losses, visits, parent, v),
    ensures
        spec_ucb_val(wins, losses, visits, parent) == v,
{
    let v2 = choose|w: int| spec_ucb(wins, losses, visits, parent, w);
    lemma_ucb_unique(wins, losses, visits, parent, v, v2);
}

/// A child first visited once, with one win under one parent visit,
/// scores exactly one: the win rate is exact and the exploration term
/// vanishes because ln(1) is exactly zero.
pub proof fn lemma_ucb_first_visit()
    ensures
        spec_ucb_val(1, 0, 1, 1) == 4294967296,
{
    assert(spec_log2_fixed(1) == 0);
    assert(spec_ln_fixed(1) == 0);
    assert(spec_ucb_sqrt_arg(1, 1) == 0);
    assert(is_sqrt_floor(0, 0));
    assert(spec_ratio(1, 0, 1) == 4294967296);
    assert(spec_ucb(1, 0, 1, 1, 4294967296));
    lemma_ucb_val(1, 0, 1, 1, 4294967296);
}

/// The fixed-point upper-confidence-bound score.
pub fn ucb_score(wins: usize, losses: usize, visits: usize, parent_visits: usize) -> (r: i64)
    requires
        visits >= 1,
        parent_visits >= 1,
        wins + losses <= visits,
    ensures
        spec_ucb(wins as nat, losses as nat, visits as nat, parent_visits as nat, r as int),
        r as int == spec_ucb_val(wins as nat, losses as nat, visits as nat, parent_visits as nat),
{
    let lnp: u64 = ln_fixed(parent_visits as u64);
    let q: u128 = ((lnp as u128) * 4294967296u128) / (visits as u128);
    proof {
        assert((lnp as int) * 4294967296 < 190530846208int * 4294967296) by (nonlinear_arith)
            requires lnp < 190530846208u64;
        assert(q <= (lnp as int) * 4294967296) by (nonlinear_arith)
            requires q as int == ((lnp as int) * 4294967296) / (visits as int), visits >= 1, (
            lnp as int) * 4294967296 >= 0;
    }
    let s: u128 = isqrt(q);
    proof {
        assert(s < 34359738368u128) by (nonlinear_arith)
            requires (s as int) * (s as int) <= q as int, q < 818374099565169147904int;
    }
    let term: u128 = (12148002000u128 * s) / 4294967296u128;
    proof {
        assert(12148002000int * (s as int) < 12148002000int * 34359738368int) by (nonlinear_arith)
            requires s < 34359738368u128;
        assert(term < 97184016000u128) by (nonlinear_arith)
            requires (term as int) == (12148002000int * (s as int)) / 4294967296int, 12148002000int
                * (s as int) < 12148002000int * 34359738368int;
    }
    proof {
        assert(q as int == spec_ucb_sqrt_arg(visits as nat, parent_visits as nat));
        assert(is_sqrt_floor(spec_ucb_sqrt_arg(visits as nat, parent_visits as nat), s as int));
    }
    if wins >= losses {
        let d: usize = wins - losses;
        let ratio: u128 = ((d as u128) * 4294967296u128) / (visits as u128);
        proof {
            assert(ratio <= 4294967296u128) by (nonlinear_arith)
                requires
                    ratio as int == ((d as int) * 4294967296) / (visits as int),
                    0 <= d <= visits,
                    visits >= 1,
            ;
            assert(ratio as int == spec_ratio(wins as nat, losses as nat, visits as nat));
            assert((ratio + term) as int == spec_ratio(wins as nat, losses as nat, visits as nat)
                + (12148002000 * (s as int)) / 4294967296);
            assert(spec_ucb(
                wins as nat,
                losses as nat,
                visits as nat,
                parent_visits as nat,
                (ratio + term) as i64 as int,
            ));
            lemma_ucb_val(
                wins as nat,
                losses as nat,
                visits as nat,
                parent_visits as nat,
                (ratio + term) as i64 as int,
            );
        }
        (ratio + term) as i64
    } else {
        let d: usize = losses - wins;
        let ratio: u128 = ((d as u128) * 4294967296u128) / (visits as u128);
        proof {
            assert(ratio <= 4294967296u128) by (nonlinear_arith)
                requires
                    ratio as int == ((d as int) * 4294967296) / (visits as int),
                    0 <= d <= visits,
                    visits >= 1,
            ;
            assert(-(ratio as int) == spec_ratio(wins as nat, losses as nat, visits as nat));
            assert((term as int) - (ratio as int) == spec_ratio(
                wins as nat,
                losses as nat,
                visits as nat,
            ) + (12148002000 * (s as int)) / 4294967296);
            assert(spec_ucb(
                wins as nat,
                losses as nat,
                visits as nat,
                parent_visits as nat,
                (term as int) - (ratio as int),
            ));
            lemma_ucb_val(
                wins as nat,
                losses as nat,
                visits as nat,
                parent_visits as nat,
                (term as int) - (ratio as int),
            );
        }
        (term as i64) - (ratio as i64)
    }
}

} // verus!
