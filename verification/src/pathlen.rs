//! Depth-limit and normalization math, in fixed point.
//!
//! The expected isolation depth of a point among `n` uniformly random points
//! under `b`-way random splitting is `log(n / max_leaf) / log(2 * b)` once
//! `n` reaches `max_leaf`, and `0` below that. The library carries this
//! quantity in fixed point (scaled by `SCALE`): the integer part is the
//! floor logarithm base `2 * b` of `n / max_leaf`, and the fractional part
//! interpolates linearly between consecutive powers of `2 * b`. The same
//! quantity serves as a tree's depth limit and as the forest's score
//! normalizer, and the anomaly score is a base-2 exponential of a ratio of
//! two such quantities, again in fixed point.

use vstd::prelude::*;
use vstd::arithmetic::power::pow;
use vstd::arithmetic::power::lemma_pow_positive;
use vstd::arithmetic::power::lemma_pow_strictly_increases_converse;
use vstd::arithmetic::power2::lemma_pow2;
use vstd::arithmetic::power2::lemma_pow2_adds;
use vstd::arithmetic::power2::lemma2_to64;
use vstd::arithmetic::power2::lemma2_to64_rest;
use vstd::arithmetic::div_mod::lemma_fundamental_div_mod;
use vstd::arithmetic::div_mod::lemma_div_is_ordered;
use vstd::arithmetic::div_mod::lemma_div_is_ordered_by_denominator;
use vstd::arithmetic::div_mod::lemma_div_pos_is_pos;
use vstd::arithmetic::div_mod::lemma_div_denominator;
use vstd::arithmetic::div_mod::lemma_multiply_divide_lt;
use crate::GrowthCriterion;
use crate::SCALE;

verus! {

/// Largest `q` such that `m * b2^q <= num` (and `0` when `num < m * b2`).
pub open spec fn iso_log(b2: int, m: int, num: int) -> nat
    recommends
        b2 >= 4,
        m >= 1,
    decreases num - m,
        via iso_log_decreases
{
    if b2 >= 4 && m >= 1 && num >= m * b2 {
        (1 + iso_log(b2, m * b2, num)) as nat
    } else {
        0
    }
}

#[via_fn]
proof fn iso_log_decreases(b2: int, m: int, num: int) {
    assert(b2 >= 4 && m >= 1 ==> m * b2 > m) by (nonlinear_arith);
}

/// The expected isolation depth for `num / den` points with `max_leaf = ml`
/// and branching factor `bf`, scaled by `SCALE`: zero below `ml`, otherwise
/// the floor logarithm base `2 * bf` of `num / (den * ml)` plus a linear
/// interpolation between the surrounding powers.
pub open spec fn rpl_spec(bf: int, ml: int, num: int, den: int) -> int
    recommends
        bf >= 2,
        ml >= 1,
        den >= 1,
        num >= 0,
{
    let m = ml * den;
    if num < m {
        0
    } else {
        let b2 = 2 * bf;
        let q = iso_log(b2, m, num);
        let p = pow(b2, q);
        q * SCALE + ((num - m * p) * SCALE) / (m * p * (b2 - 1))
    }
}

/// `iso_log` names the floor logarithm: the power below stays at or under
/// `num` and the next power exceeds it.
pub proof fn lemma_iso_log_bounds(b2: int, m: int, num: int)
    requires
        b2 >= 4,
        m >= 1,
        num >= m,
    ensures
        m * pow(b2, iso_log(b2, m, num)) <= num,
        num < m * pow(b2, iso_log(b2, m, num) + 1),
    decreases num - m,
{
    reveal(pow);
    let q = iso_log(b2, m, num);
    if num >= m * b2 {
        assert(m * b2 >= 1 && m * b2 > m) by (nonlinear_arith)
            requires m >= 1 && b2 >= 4;
        lemma_iso_log_bounds(b2, m * b2, num);
        let q2 = iso_log(b2, m * b2, num);
        assert(q == q2 + 1);
        assert((m * b2) * pow(b2, q2) == m * pow(b2, q2 + 1)) by (nonlinear_arith)
            requires pow(b2, q2 + 1) == b2 * pow(b2, q2);
        assert((m * b2) * pow(b2, q2 + 1) == m * pow(b2, q2 + 2)) by (nonlinear_arith)
            requires pow(b2, q2 + 2) == b2 * pow(b2, q2 + 1);
    } else {
        assert(pow(b2, 1) == b2 * pow(b2, 0));
        assert(m * pow(b2, 0) == m && m * pow(b2, 1) == m * b2) by (nonlinear_arith)
            requires pow(b2, 0) == 1 && pow(b2, 1) == b2;
    }
}

/// Any `q` whose surrounding powers bracket `num` is the floor logarithm.
pub proof fn lemma_iso_log_unique(b2: int, m: int, num: int, q: nat)
    requires
        b2 >= 4,
        m >= 1,
        m * pow(b2, q) <= num,
        num < m * pow(b2, q + 1),
    ensures
        iso_log(b2, m, num) == q,
    decreases q,
{
    reveal(pow);
    if q == 0 {
        assert(num < m * b2) by (nonlinear_arith)
            requires num < m * pow(b2, 1) && pow(b2, 1) == b2 * pow(b2, 0) && pow(b2, 0) == 1;
    } else {
        lemma_pow_positive(b2, (q - 1) as nat);
        assert(pow(b2, q) == b2 * pow(b2, (q - 1) as nat));
        assert(num >= m * b2) by (nonlinear_arith)
            requires
                m * pow(b2, q) <= num,
                pow(b2, q) == b2 * pow(b2, (q - 1) as nat),
                pow(b2, (q - 1) as nat) >= 1,
                m >= 1,
                b2 >= 4;
        assert(m * b2 >= 1) by (nonlinear_arith)
            requires m >= 1 && b2 >= 4;
        assert((m * b2) * pow(b2, (q - 1) as nat) == m * pow(b2, q)) by (nonlinear_arith)
            requires pow(b2, q) == b2 * pow(b2, (q - 1) as nat);
        assert((m * b2) * pow(b2, q) == m * pow(b2, q + 1)) by (nonlinear_arith)
            requires pow(b2, q + 1) == b2 * pow(b2, q);
        lemma_iso_log_unique(b2, m * b2, num, (q - 1) as nat);
    }
}

/// The scaled path length is non-negative and stays strictly below the step
/// after its own floor logarithm: the interpolated part never reaches a full
/// `SCALE`.
pub proof fn lemma_rpl_range(bf: int, ml: int, num: int, den: int)
    requires
        bf >= 2,
        ml >= 1,
        den >= 1,
        num >= 0,
    ensures
        0 <= rpl_spec(bf, ml, num, den),
        rpl_spec(bf, ml, num, den) < (iso_log(2 * bf, ml * den, num) + 1) * SCALE,
{
    reveal(pow);
    let m = ml * den;
    let b2 = 2 * bf;
    assert(m >= 1) by (nonlinear_arith)
        requires ml >= 1 && den >= 1 && m == ml * den;
    let q = iso_log(b2, m, num);
    assert((q + 1) * SCALE >= SCALE) by (nonlinear_arith);
    if num >= m {
        lemma_iso_log_bounds(b2, m, num);
        let p = pow(b2, q);
        lemma_pow_positive(b2, q);
        assert(pow(b2, q + 1) == b2 * pow(b2, q));
        let x = num - m * p;
        let d = m * p * (b2 - 1);
        assert(d >= 1 && x < d && x * SCALE < d * SCALE && x * SCALE >= 0) by (nonlinear_arith)
            requires
                m >= 1,
                p >= 1,
                b2 >= 4,
                x == num - m * p,
                d == m * p * (b2 - 1),
                m * p <= num,
                num < m * pow(b2, q + 1),
                pow(b2, q + 1) == b2 * pow(b2, q),
                p == pow(b2, q);
        lemma_multiply_divide_lt(x * SCALE, d, SCALE as int);
        lemma_div_pos_is_pos(x * SCALE, d);
        assert(rpl_spec(bf, ml, num, den) == q * SCALE + (x * SCALE) / d);
        assert(q * SCALE + SCALE == (q + 1) * SCALE) by (nonlinear_arith);
    }
}

/// Monotonicity of the depth limit and of the normalization factor: for a
/// fixed configuration, the scaled expected isolation depth never decreases
/// as the population grows.
pub proof fn lemma_rpl_monotonic(bf: int, ml: int, num1: int, num2: int, den: int)
    requires
        bf >= 2,
        ml >= 1,
        den >= 1,
        0 <= num1 <= num2,
    ensures
        rpl_spec(bf, ml, num1, den) <= rpl_spec(bf, ml, num2, den),
{
    reveal(pow);
    let m = ml * den;
    let b2 = 2 * bf;
    assert(m >= 1) by (nonlinear_arith)
        requires ml >= 1 && den >= 1 && m == ml * den;
    lemma_rpl_range(bf, ml, num1, den);
    lemma_rpl_range(bf, ml, num2, den);
    if num1 >= m {
        lemma_iso_log_bounds(b2, m, num1);
        lemma_iso_log_bounds(b2, m, num2);
        let q1 = iso_log(b2, m, num1);
        let q2 = iso_log(b2, m, num2);
        let p1 = pow(b2, q1);
        let p2 = pow(b2, q2);
        lemma_pow_positive(b2, q1);
        lemma_pow_positive(b2, q2);
        assert(pow(b2, q1) < pow(b2, q2 + 1)) by (nonlinear_arith)
            requires
                m >= 1,
                m * pow(b2, q1) <= num1,
                num1 <= num2,
                num2 < m * pow(b2, q2 + 1);
        lemma_pow_strictly_increases_converse(b2 as nat, q1, q2 + 1);
        if q1 == q2 {
            let d = m * p1 * (b2 - 1);
            assert(d >= 1) by (nonlinear_arith)
                requires m >= 1 && p1 >= 1 && b2 >= 4 && d == m * p1 * (b2 - 1);
            assert((num1 - m * p1) * SCALE <= (num2 - m * p1) * SCALE) by (nonlinear_arith)
                requires num1 <= num2;
            lemma_div_is_ordered((num1 - m * p1) * SCALE, (num2 - m * p1) * SCALE, d);
        } else {
            assert(q1 < q2);
            assert((q1 + 1) * SCALE <= q2 * SCALE) by (nonlinear_arith)
                requires q1 + 1 <= q2;
            let d2 = m * p2 * (b2 - 1);
            assert(d2 >= 1) by (nonlinear_arith)
                requires m >= 1 && p2 >= 1 && b2 >= 4 && d2 == m * p2 * (b2 - 1);
            assert((num2 - m * p2) * SCALE >= 0) by (nonlinear_arith)
                requires m * p2 <= num2;
            lemma_div_pos_is_pos((num2 - m * p2) * SCALE, d2);
        }
    }
}

/// Scaled expected isolation depth of `num / den` points, in fixed point.
///
/// This is the executable form of `rpl_spec`: zero below `max_leaf`,
/// otherwise the floor logarithm base `2 * bf` plus a linear interpolation
/// between the surrounding powers, all scaled by `SCALE`.
pub fn random_path_length_fp(bf: u64, ml: u64, num: u128, den: u128) -> (r: u64)
    requires
        2 <= bf <= 65536,
        1 <= ml,
        1 <= den <= 65536,
        num <= 0x100000000000000000000,
    ensures
        r == rpl_spec(bf as int, ml as int, num as int, den as int),
        r <= 82 * SCALE,
{
    proof {
        reveal(pow);
        assert((ml as int) * (den as int) >= 1 && (ml as int) * (den as int) < 0x100000000000000000000000)
            by (nonlinear_arith)
            requires 1 <= ml <= 0xffffffffffffffff && 1 <= den <= 65536;
    }
    let m: u128 = (ml as u128) * den;
    if num < m {
        return 0;
    }
    let b2: u128 = 2 * (bf as u128);
    let mut q: u64 = 0;
    let mut p: u128 = 1;
    loop
        invariant
            4 <= b2 <= 131072,
            b2 == 2 * bf,
            1 <= m,
            m == ml * den,
            m <= num <= 0x100000000000000000000,
            p == pow(b2 as int, q as nat),
            1 <= p,
            m * p <= num,
            pow(2, q as nat) <= p,
            q <= 80,
            2 <= bf <= 65536,
            1 <= ml,
            1 <= den <= 65536,
        ensures
            4 <= b2 <= 131072,
            b2 == 2 * bf,
            1 <= m,
            m == ml * den,
            m <= num <= 0x100000000000000000000,
            p == pow(b2 as int, q as nat),
            m * p <= num,
            num < m * (p * b2),
            q <= 80,
        decreases num - m * p,
    {
        proof {
            reveal(pow);
            assert(m * p * b2 <= num * 131072 && num * 131072 < 0x100000000000000000000000000000000)
                by (nonlinear_arith)
                requires
                    m >= 1 && p >= 1 && 4 <= b2 <= 131072,
                    m * p <= num,
                    num <= 0x100000000000000000000;
            assert(m * p * b2 == m * (p * b2)) by (nonlinear_arith);
        }
        if m * p * b2 > num {
            break;
        }
        proof {
            reveal(pow);
            assert(p * b2 <= num && m * p * b2 > m * p && 1 <= p * b2) by (nonlinear_arith)
                requires
                    m >= 1 && p >= 1 && b2 >= 4 && m * p * b2 <= num;
            if q >= 80 {
                lemma_pow2(80);
                lemma_pow2_adds(64, 16);
                lemma2_to64();
                lemma2_to64_rest();
                assert(pow(2, 80) == 0x100000000000000000000);
                assert(false) by (nonlinear_arith)
                    requires
                        pow(2, q as nat) <= p,
                        pow(2, q as nat) >= 0x100000000000000000000,
                        p * b2 <= num,
                        num <= 0x100000000000000000000,
                        b2 >= 4,
                        p >= 1;
            }
            assert(pow(b2 as int, (q + 1) as nat) == b2 * pow(b2 as int, q as nat));
            assert(pow(2, (q + 1) as nat) == 2 * pow(2, q as nat));
            assert(2 * pow(2, q as nat) <= b2 * p && b2 * p == p * b2) by (nonlinear_arith)
                requires pow(2, q as nat) <= p && b2 >= 4 && p >= 1;
        }
        p = p * b2;
        q = q + 1;
    }
    proof {
        reveal(pow);
        assert(num < m * pow(b2 as int, (q + 1) as nat)) by (nonlinear_arith)
            requires
                num < m * (p * b2),
                pow(b2 as int, (q + 1) as nat) == b2 * pow(b2 as int, q as nat),
                p == pow(b2 as int, q as nat);
        lemma_iso_log_unique(b2 as int, m as int, num as int, q as nat);
        lemma_pow_positive(b2 as int, q as nat);
    }
    proof {
        assert(1 <= m * p * (b2 - 1) && num - m * p < m * p * (b2 - 1)
            && (num - m * p) * (SCALE as int) < (m * p * (b2 - 1)) * (SCALE as int)
            && m * p * (b2 - 1) < 0x100000000000000000000000000000000
            && (num - m * p) * (SCALE as int) < 0x100000000000000000000000000000000)
            by (nonlinear_arith)
            requires
                m >= 1 && p >= 1 && 4 <= b2 <= 131072,
                m * p <= num,
                num < m * (p * b2),
                num <= 0x100000000000000000000,
                SCALE == 65536;
    }
    let x: u128 = num - m * p;
    let d: u128 = m * p * (b2 - 1);
    proof {
        lemma_multiply_divide_lt(x * (SCALE as int), d as int, SCALE as int);
        lemma_div_pos_is_pos(x * (SCALE as int), d as int);
    }
    let frac: u128 = (x * (SCALE as u128)) / d;
    let r: u64 = q * SCALE + (frac as u64);
    proof {
        assert(r == rpl_spec(bf as int, ml as int, num as int, den as int));
    }
    r
}

/// The anomaly score for a mean depth of `sum / trees` against the
/// normalization factor `norm`, in fixed point: `2^(-x)` where
/// `x = (sum / trees) / (norm + epsilon)` and `epsilon` is one fixed-point
/// unit guarding a zero normalizer. The base-2 exponential is evaluated as
/// a floor power of two with a linear interpolation between powers: at
/// `x = 0` the score is exactly `SCALE` (that is, 1.0), and it decays
/// towards zero as the mean depth grows.
pub open spec fn score_spec(sum: int, trees: int, norm: int) -> int
    recommends
        trees >= 1,
        sum >= 0,
        norm >= 0,
{
    let x = (sum * SCALE) / (trees * (norm + 1));
    let q = x / (SCALE as int);
    let r = x % (SCALE as int);
    if q >= 63 {
        0
    } else {
        (2 * SCALE - r) / pow(2, (q + 1) as nat)
    }
}

/// Executable form of `score_spec`.
pub fn score_fp(sum: u128, trees: u64, norm: u64) -> (r: u64)
    requires
        1 <= trees,
        sum <= 0x1000000000000000000000000,
    ensures
        r == score_spec(sum as int, trees as int, norm as int),
        r <= SCALE,
{
    proof {
        assert((trees as int) * ((norm as int) + 1) >= 1
            && (trees as int) * ((norm as int) + 1) < 0x100000000000000000000000000000000
            && (sum as int) * (SCALE as int) < 0x100000000000000000000000000000000)
            by (nonlinear_arith)
            requires
                1 <= trees <= 0xffffffffffffffff,
                norm <= 0xffffffffffffffff,
                sum <= 0x1000000000000000000000000,
                SCALE == 65536;
    }
    let denom: u128 = (trees as u128) * ((norm as u128) + 1);
    let x: u128 = (sum * (SCALE as u128)) / denom;
    let q: u128 = x / (SCALE as u128);
    let rem: u128 = x % (SCALE as u128);
    if q >= 63 {
        return 0;
    }
    proof {
        reveal(pow);
        assert(pow(2, 0) == 1);
    }
    let mut v: u64 = 2 * SCALE - (rem as u64);
    let mut i: u64 = 0;
    let qs: u64 = q as u64;
    while i < qs + 1
        invariant
            qs == q,
            q <= 62,
            rem < SCALE,
            i <= qs + 1,
            v == (2 * SCALE - rem) / pow(2, i as nat),
            v <= 2 * SCALE,
        decreases qs + 1 - i,
    {
        proof {
            reveal(pow);
            assert(pow(2, (i + 1) as nat) == 2 * pow(2, i as nat));
            lemma_pow_positive(2, i as nat);
            lemma_div_denominator((2 * SCALE - rem) as int, pow(2, i as nat), 2);
            assert(pow(2, i as nat) * 2 == 2 * pow(2, i as nat)) by (nonlinear_arith);
        }
        v = v / 2;
        i = i + 1;
    }
    proof {
        reveal(pow);
        lemma_pow_positive(2, (qs + 1) as nat);
        assert(pow(2, (qs + 1) as nat) >= 2) by {
            assert(pow(2, (qs + 1) as nat) == 2 * pow(2, qs as nat));
            lemma_pow_positive(2, qs as nat);
            assert(2 * pow(2, qs as nat) >= 2) by (nonlinear_arith)
                requires pow(2, qs as nat) >= 1;
        }
        lemma_div_is_ordered((2 * SCALE - rem) as int, 2 * SCALE, pow(2, (qs + 1) as nat));
        lemma_div_is_ordered_by_denominator(2 * SCALE, 2, pow(2, (qs + 1) as nat));
        assert(v <= SCALE);
    }
    v
}

/// Larger mean depths never score higher: the fixed-point exponential is
/// non-increasing in its argument.
pub proof fn lemma_score_monotonic(sum1: int, sum2: int, trees: int, norm: int)
    requires
        trees >= 1,
        norm >= 0,
        0 <= sum1 <= sum2,
    ensures
        score_spec(sum2, trees, norm) <= score_spec(sum1, trees, norm),
{
    reveal(pow);
    let d = trees * (norm + 1);
    assert(d >= 1) by (nonlinear_arith)
        requires trees >= 1 && norm >= 0 && d == trees * (norm + 1);
    assert(sum1 * SCALE <= sum2 * SCALE && 0 <= sum1 * SCALE) by (nonlinear_arith)
        requires 0 <= sum1 <= sum2;
    lemma_div_is_ordered(sum1 * SCALE, sum2 * SCALE, d);
    lemma_div_pos_is_pos(sum1 * SCALE, d);
    let x1 = (sum1 * SCALE) / d;
    let x2 = (sum2 * SCALE) / d;
    lemma_div_is_ordered(x1, x2, SCALE as int);
    lemma_div_pos_is_pos(x1, SCALE as int);
    let q1 = x1 / (SCALE as int);
    let q2 = x2 / (SCALE as int);
    let r1 = x1 % (SCALE as int);
    let r2 = x2 % (SCALE as int);
    if q2 >= 63 {
        if q1 < 63 {
            lemma_pow_positive(2, (q1 + 1) as nat);
            lemma_div_pos_is_pos(2 * SCALE - r1, pow(2, (q1 + 1) as nat));
        }
    } else {
        lemma_pow_positive(2, (q1 + 1) as nat);
        lemma_pow_positive(2, (q2 + 1) as nat);
        if q1 == q2 {
            lemma_fundamental_div_mod(x1, SCALE as int);
            lemma_fundamental_div_mod(x2, SCALE as int);
            assert(r1 <= r2);
            lemma_div_is_ordered(2 * SCALE - r2, 2 * SCALE - r1, pow(2, (q1 + 1) as nat));
        } else {
            assert(q1 < q2);
            // score2 <= 2S / 2^(q2+1) <= 2S / 2^(q1+2) == S / 2^(q1+1)
            //        <= (2S - r1) / 2^(q1+1) == score1, since r1 < S.
            lemma_div_is_ordered(2 * SCALE - r2, 2 * SCALE, pow(2, (q2 + 1) as nat));
            assert(pow(2, (q1 + 2) as nat) <= pow(2, (q2 + 1) as nat)) by {
                vstd::arithmetic::power::lemma_pow_increases(2, (q1 + 2) as nat, (q2 + 1) as nat);
            }
            lemma_div_is_ordered_by_denominator(2 * SCALE, pow(2, (q1 + 2) as nat), pow(2, (q2 + 1) as nat));
            assert(pow(2, (q1 + 2) as nat) == 2 * pow(2, (q1 + 1) as nat));
            lemma_div_denominator(2 * SCALE, 2, pow(2, (q1 + 1) as nat));
            assert((2 * SCALE) / (2 * pow(2, (q1 + 1) as nat)) == (SCALE as int) / pow(2, (q1 + 1) as nat)) by {
                assert((2 * SCALE) / 2 == SCALE as int);
                assert(2 * pow(2, (q1 + 1) as nat) == pow(2, (q1 + 1) as nat) * 2) by (nonlinear_arith);
            }
            lemma_div_is_ordered(SCALE as int, 2 * SCALE - r1, pow(2, (q1 + 1) as nat));
        }
    }
}

/// Scores stay inside the unit interval, and an empty depth sum scores
/// exactly one.
pub proof fn lemma_score_range(sum: int, trees: int, norm: int)
    requires
        trees >= 1,
        norm >= 0,
        sum >= 0,
    ensures
        0 <= score_spec(sum, trees, norm) <= SCALE,
        sum == 0 ==> score_spec(sum, trees, norm) == SCALE,
{
    reveal(pow);
    let d = trees * (norm + 1);
    assert(d >= 1) by (nonlinear_arith)
        requires trees >= 1 && norm >= 0 && d == trees * (norm + 1);
    assert(0 <= sum * SCALE) by (nonlinear_arith)
        requires 0 <= sum;
    lemma_div_pos_is_pos(sum * SCALE, d);
    let x = (sum * SCALE) / d;
    lemma_div_pos_is_pos(x, SCALE as int);
    let q = x / (SCALE as int);
    let r = x % (SCALE as int);
    if q < 63 {
        lemma_pow_positive(2, (q + 1) as nat);
        lemma_div_pos_is_pos(2 * SCALE - r, pow(2, (q + 1) as nat));
        assert(pow(2, (q + 1) as nat) >= 2) by {
            assert(pow(2, (q + 1) as nat) == 2 * pow(2, q as nat));
            lemma_pow_positive(2, q as nat);
            assert(2 * pow(2, q as nat) >= 2) by (nonlinear_arith)
                requires pow(2, q as nat) >= 1;
        }
        lemma_div_is_ordered(2 * SCALE - r, 2 * SCALE, pow(2, (q + 1) as nat));
        lemma_div_is_ordered_by_denominator(2 * SCALE, 2, pow(2, (q + 1) as nat));
    }
    if sum == 0 {
        assert(x == 0) by {
            assert(sum * SCALE == 0) by (nonlinear_arith)
                requires sum == 0;
            vstd::arithmetic::div_mod::lemma_div_of0(d);
        }
        assert(q == 0 && r == 0) by {
            vstd::arithmetic::div_mod::lemma_div_of0(SCALE as int);
        }
        assert(pow(2, 1) == 2);
        assert(score_spec(sum, trees, norm) == (2 * SCALE) / 2);
    }
}

/// The split-threshold multiplier for a node at `depth`: `1` under the
/// fixed criterion, `2^depth` (saturating at `u64::MAX`) under the adaptive
/// one.
pub open spec fn multiplier_spec(g: GrowthCriterion, depth: nat) -> int {
    match g {
        GrowthCriterion::Fixed => 1,
        GrowthCriterion::Adaptive => if pow(2, depth) > u64::MAX {
            u64::MAX as int
        } else {
            pow(2, depth)
        },
    }
}

/// Executable form of `multiplier_spec`.
pub fn multiplier_fp(g: GrowthCriterion, depth: usize) -> (r: u64)
    ensures
        r == multiplier_spec(g, depth as nat),
{
    match g {
        GrowthCriterion::Fixed => 1,
        GrowthCriterion::Adaptive => {
            if depth >= 64 {
                proof {
                    lemma_pow2(64);
                    lemma2_to64_rest();
                    vstd::arithmetic::power::lemma_pow_increases(2, 64, depth as nat);
                }
                u64::MAX
            } else {
                let mut pw: u64 = 1;
                let mut i: usize = 0;
                proof {
                    reveal(pow);
                }
                while i < depth
                    invariant
                        i <= depth <= 63,
                        pw == pow(2, i as nat),
                    decreases depth - i,
                {
                    proof {
                        reveal(pow);
                        lemma_pow2(i as nat);
                        lemma_pow2(62);
                        lemma2_to64_rest();
                        if i <= 62 {
                            vstd::arithmetic::power::lemma_pow_increases(2, i as nat, 62);
                        }
                        assert(pow(2, (i + 1) as nat) == 2 * pow(2, i as nat));
                    }
                    pw = 2 * pw;
                    i = i + 1;
                }
                proof {
                    lemma_pow2(depth as nat);
                    lemma_pow2(63);
                    lemma2_to64_rest();
                    vstd::arithmetic::power::lemma_pow_increases(2, depth as nat, 63);
                }
                pw
            }
        },
    }
}

/// Whether a node holding `ds` samples at `depth` has reached the split
/// threshold `max_leaf_samples * multiplier(depth)`.
pub open spec fn reaches_threshold_spec(ml: int, g: GrowthCriterion, depth: nat, ds: int) -> bool {
    ds >= ml * multiplier_spec(g, depth)
}

/// Executable form of `reaches_threshold_spec`; an overflowing threshold
/// can never be reached.
pub fn reaches_split_threshold(ml: u64, g: GrowthCriterion, depth: usize, ds: u64) -> (b: bool)
    ensures
        b == reaches_threshold_spec(ml as int, g, depth as nat, ds as int),
{
    let mult = multiplier_fp(g, depth);
    match ml.checked_mul(mult) {
        Some(t) => ds >= t,
        None => {
            proof {
                assert(ds < ml * mult) by (nonlinear_arith)
                    requires ml * mult > 0xffffffffffffffff && ds <= 0xffffffffffffffff;
            }
            false
        },
    }
}

} // verus!
