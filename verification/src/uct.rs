//! The selection score of a search node, in whole numbers.
//!
//! The score of a child is its mean outcome plus an exploration bonus,
//! `wins / visits + rate * sqrt(ln(parent_visits) / visits)`. It is kept here
//! as a fraction: a numerator over `65536 * visits`. Two scores are compared
//! by cross-multiplying, so the mean enters a comparison exactly.
//!
//! The bonus is rounded down in each of its steps:
//! - the binary logarithm is taken with sixteen binary places, less than
//!   two units of the last place below the logarithm (`log2_bracket`);
//! - it is multiplied by `ln 2` with 32 binary places, rounded down, and the
//!   product is kept with sixteen places;
//! - the quotient by the visits is kept with 32 places, and its square root
//!   with sixteen (`is_root`).
//!
//! So the bonus is never above `sqrt(ln(parent_visits) / visits)`, and it is
//! less than 1/8192 below it: the logarithm contributes less than 1/20000,
//! the quotient less than 1/50000 and the root less than 1/65536. The score
//! is therefore at most the score of the formula and less than `rate / 8192`
//! below it, and the order of two scores is that of the formula wherever
//! the formula's scores differ by `rate / 8192` or more.

use crate::log::{log2_bracket, log2_fixed, log2_fixed_of};
use vstd::prelude::*;

verus! {

/// `ln 2`, times two to the power of 32, rounded down.
pub const LN2_SCALED: u64 = 2977044471;

/// The most visits a node can count.
pub const MAX_VISITS: u64 = 0xFFFF_FFFF;

/// Whether `r` is the square root of `x`, rounded down.
pub open spec fn is_root(x: int, r: int) -> bool {
    0 <= r && r * r <= x < (r + 1) * (r + 1)
}

/// The square root of `x`, rounded down.
pub open spec fn sqrt_floor(x: int) -> int {
    choose|r: int| is_root(x, r)
}

/// The natural logarithm of `n`, times 65536, rounded down from the
/// fixed-point binary logarithm; 0 for `n` below 1.
pub open spec fn ln_scaled(n: int) -> int {
    if n < 1 {
        0
    } else {
        log2_fixed(n) * LN2_SCALED / 0x1_0000_0000
    }
}

/// `ln(parent_visits) / visits`, times two to the power of 32, rounded down.
pub open spec fn explore_ratio(parent_visits: int, visits: int) -> int {
    ln_scaled(parent_visits) * 65536 / visits
}

/// `sqrt(ln(parent_visits) / visits)`, times 65536, rounded down.
pub open spec fn explore_term(parent_visits: int, visits: int) -> int {
    sqrt_floor(explore_ratio(parent_visits, visits))
}

/// The numerator of the score of a child with the given statistics; the
/// score itself is this number over `65536 * visits`.
pub open spec fn uct_key(wins: int, visits: int, parent_visits: int, rate: int) -> int {
    wins * 65536 + rate * explore_term(parent_visits, visits) * visits
}

/// Whether the score `key_a / (65536 * visits_a)` is above the score
/// `key_b / (65536 * visits_b)`.
pub open spec fn score_above(key_a: int, visits_a: int, key_b: int, visits_b: int) -> bool {
    key_a * visits_b > key_b * visits_a
}

/// A number has one square root only.
pub proof fn lemma_root_unique(x: int, r1: int, r2: int)
    requires
        is_root(x, r1),
        is_root(x, r2),
    ensures
        r1 == r2,
{
    if r1 < r2 {
        assert((r1 + 1) * (r1 + 1) <= r2 * r2) by (nonlinear_arith)
            requires
                0 <= r1,
                r1 + 1 <= r2,
        ;
    } else if r2 < r1 {
        assert((r2 + 1) * (r2 + 1) <= r1 * r1) by (nonlinear_arith)
            requires
                0 <= r2,
                r2 + 1 <= r1,
        ;
    }
}

/// The square root of `x`, rounded down.
pub fn isqrt(x: u64) -> (r: u64)
    ensures
        r == sqrt_floor(x as int),
        is_root(x as int, r as int),
        r <= MAX_VISITS,
{
    let mut lo: u64 = 0;
    let mut hi: u64 = 0x1_0000_0000;
    assert(0x1_0000_0000int * 0x1_0000_0000int > x) by (nonlinear_arith)
        requires
            x <= u64::MAX,
    ;
    while hi - lo > 1
        invariant
            lo < hi <= 0x1_0000_0000,
            lo * lo <= x < hi * hi,
        decreases hi - lo,
    {
        let mid: u64 = lo + (hi - lo) / 2;
        assert(mid * mid <= 0x1_0000_0000int * 0x1_0000_0000int) by (nonlinear_arith)
            requires
                0 <= mid <= 0x1_0000_0000,
        ;
        let square: u128 = (mid as u128) * (mid as u128);
        if square <= x as u128 {
            lo = mid;
        } else {
            hi = mid;
        }
    }
    proof {
        assert(hi == lo + 1);
        assert(is_root(x as int, lo as int));
        lemma_root_unique(x as int, lo as int, sqrt_floor(x as int));
    }
    lo
}

/// The most that the numerator of a score can be, either way.
pub open spec fn key_bound() -> int {
    0x1000_0000_0000_0000_0000_0000
}

/// The numerator of the selection score of a child that was visited
/// `visits` times, with outcomes that add up to `wins`, below a parent that
/// was visited `parent_visits` times. `explore_rate` weighs the exploration
/// bonus against the mean outcome, in units of the outcome.
///
/// The score is the numerator over `65536 * visits`. Its mean is exact; its
/// bonus is the formula's rounded down, by the logarithm within the bracket
/// and by the root stated here, which is less than 1/8192 in all.
pub fn uct_value(wins: i64, visits: u64, parent_visits: u64, explore_rate: u32) -> (key: i128)
    requires
        1 <= visits <= MAX_VISITS,
        parent_visits <= MAX_VISITS,
        -1000 * visits <= wins <= 1000 * visits,
    ensures
        key == uct_key(wins as int, visits as int, parent_visits as int, explore_rate as int),
        key == wins * 65536 + explore_rate * explore_term(parent_visits as int, visits as int)
            * visits,
        parent_visits >= 1 ==> log2_bracket(
            parent_visits as int,
            log2_fixed(parent_visits as int),
        ),
        is_root(
            explore_ratio(parent_visits as int, visits as int),
            explore_term(parent_visits as int, visits as int),
        ),
        -key_bound() < key < key_bound(),
{
    let log: u64 = if parent_visits >= 1 {
        log2_fixed_of(parent_visits)
    } else {
        0
    };
    let ln: u64 = log * LN2_SCALED / 0x1_0000_0000;
    let ratio: u64 = ln * 65536 / visits;
    let root: u64 = isqrt(ratio);
    assert(root < 0x8_0000) by {
        assert(ratio <= 2861962 * 65536);
        assert(root * root <= ratio);
        assert(root < 0x8_0000) by (nonlinear_arith)
            requires
                0 <= root,
                root * root <= 2861962 * 65536,
        ;
    }
    assert(0 <= explore_rate * root <= 0xFFFF_FFFF * 0x8_0000) by (nonlinear_arith)
        requires
            0 <= explore_rate <= 0xFFFF_FFFF,
            0 <= root < 0x8_0000,
    ;
    let bonus: i128 = (explore_rate as i128) * (root as i128);
    assert(0 <= bonus * visits <= 0xFFFF_FFFF * 0x8_0000 * 0xFFFF_FFFF) by (nonlinear_arith)
        requires
            0 <= bonus <= 0xFFFF_FFFF * 0x8_0000,
            1 <= visits <= 0xFFFF_FFFF,
    ;
    (wins as i128) * 65536 + bonus * (visits as i128)
}

/// Whether the first score is above the second. Each score is given by its
/// numerator and the visits it was computed for.
pub fn uct_above(key_a: i128, visits_a: u64, key_b: i128, visits_b: u64) -> (above: bool)
    requires
        -key_bound() < key_a < key_bound(),
        -key_bound() < key_b < key_bound(),
        visits_a <= MAX_VISITS,
        visits_b <= MAX_VISITS,
    ensures
        above == score_above(key_a as int, visits_a as int, key_b as int, visits_b as int),
{
    assert(-key_bound() * 0xFFFF_FFFF <= key_a * visits_b <= key_bound() * 0xFFFF_FFFF)
        by (nonlinear_arith)
        requires
            -key_bound() < key_a < key_bound(),
            0 <= visits_b <= 0xFFFF_FFFF,
    ;
    assert(-key_bound() * 0xFFFF_FFFF <= key_b * visits_a <= key_bound() * 0xFFFF_FFFF)
        by (nonlinear_arith)
        requires
            -key_bound() < key_b < key_bound(),
            0 <= visits_a <= 0xFFFF_FFFF,
    ;
    key_a * (visits_b as i128) > key_b * (visits_a as i128)
}

/// Scores are ordered: a score that is not above a second one is not above
/// a third one that is above the second.
pub proof fn lemma_score_order(
    key_a: int,
    visits_a: int,
    key_b: int,
    visits_b: int,
    key_c: int,
    visits_c: int,
)
    requires
        visits_a > 0,
        visits_b > 0,
        visits_c > 0,
        !score_above(key_a, visits_a, key_b, visits_b),
        score_above(key_c, visits_c, key_b, visits_b),
    ensures
        score_above(key_c, visits_c, key_a, visits_a),
{
    assert(key_a * visits_b * visits_c <= key_b * visits_a * visits_c) by (nonlinear_arith)
        requires
            key_a * visits_b <= key_b * visits_a,
            visits_c > 0,
    ;
    assert(key_c * visits_b * visits_a > key_b * visits_c * visits_a) by (nonlinear_arith)
        requires
            key_c * visits_b > key_b * visits_c,
            visits_a > 0,
    ;
    assert(key_c * visits_a > key_a * visits_c) by (nonlinear_arith)
        requires
            key_a * visits_b * visits_c <= key_b * visits_a * visits_c,
            key_c * visits_b * visits_a > key_b * visits_c * visits_a,
            visits_b > 0,
    ;
}

/// With no weight on exploration the score is the mean outcome: the
/// numerator is the sum of outcomes times 65536, whatever the visits of the
/// parent.
pub proof fn lemma_zero_rate_is_the_mean(wins: int, visits: int, parent_visits: int)
    ensures
        uct_key(wins, visits, parent_visits, 0) == wins * 65536,
{
    assert(0 * explore_term(parent_visits, visits) * visits == 0) by (nonlinear_arith);
}

/// With no weight on exploration, one score is above another exactly when
/// its mean outcome is higher.
pub proof fn lemma_zero_rate_compares_means(
    wins_a: int,
    visits_a: int,
    wins_b: int,
    visits_b: int,
    parent_visits: int,
)
    requires
        visits_a > 0,
        visits_b > 0,
    ensures
        score_above(
            uct_key(wins_a, visits_a, parent_visits, 0),
            visits_a,
            uct_key(wins_b, visits_b, parent_visits, 0),
            visits_b,
        ) <==> wins_a * visits_b > wins_b * visits_a,
{
    let ka = uct_key(wins_a, visits_a, parent_visits, 0);
    let kb = uct_key(wins_b, visits_b, parent_visits, 0);
    lemma_zero_rate_is_the_mean(wins_a, visits_a, parent_visits);
    lemma_zero_rate_is_the_mean(wins_b, visits_b, parent_visits);
    assert((ka * visits_b > kb * visits_a) <==> (wins_a * visits_b > wins_b * visits_a))
        by (nonlinear_arith)
        requires
            ka == wins_a * 65536,
            kb == wins_b * 65536,
    ;
}

} // verus!
