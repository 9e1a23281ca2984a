use forest_mcts::log::log2_fixed_of;
use forest_mcts::uct::{isqrt, uct_above, uct_value, LN2_SCALED, MAX_VISITS};

#[test]
fn binary_logarithm_has_sixteen_places() {
    assert_eq!(log2_fixed_of(1), 0);
    assert_eq!(log2_fixed_of(2), 65_536);
    assert_eq!(log2_fixed_of(4), 131_072);
    assert_eq!(log2_fixed_of(16), 262_144);
    assert_eq!(log2_fixed_of(1 << 40), 40 * 65_536);
    // The logarithm of 3 is 1.584962...; times 65536 that is 103872.1.
    assert_eq!(log2_fixed_of(3), 103_872);
    assert_eq!(log2_fixed_of(13), 242_512);
    assert_eq!(log2_fixed_of(14), 249_518);
    assert_eq!(log2_fixed_of(1000), 653_117);
    assert_eq!(log2_fixed_of(4_294_967_295), 2_097_151);
}

#[test]
fn binary_logarithm_lies_within_two_units_below() {
    for n in (1..2000u64).chain([65_535, 65_537, 1_000_003, 4_294_967_295, 1 << 62]) {
        let exact = (n as f64).log2() * 65_536.0;
        let fixed = log2_fixed_of(n) as f64;
        assert!(fixed <= exact + 1e-6 && exact < fixed + 2.0, "{}", n);
    }
}

#[test]
fn square_root_is_rounded_down() {
    assert_eq!(isqrt(0), 0);
    assert_eq!(isqrt(1), 1);
    assert_eq!(isqrt(3), 1);
    assert_eq!(isqrt(4), 2);
    assert_eq!(isqrt(99), 9);
    assert_eq!(isqrt(100), 10);
    assert_eq!(isqrt(2_977_038_336), 54_562);
    assert_eq!(isqrt(u64::MAX), 4_294_967_295);
}

#[test]
fn constants_of_the_score() {
    assert_eq!(LN2_SCALED, 2_977_044_471);
    assert_eq!(MAX_VISITS, 4_294_967_295);
}

#[test]
fn score_is_the_mean_where_the_parent_was_visited_once() {
    assert_eq!(uct_value(500, 1, 1, 1000), 500 * 65_536);
    assert_eq!(uct_value(-1000, 1, 1, u32::MAX), -65_536_000);
}

#[test]
fn bonus_is_the_root_of_the_logarithm_over_the_visits() {
    // ln 14 = 2.639057; a child visited once has the bonus 1.624518, times 65536: 106464.4.
    assert_eq!(uct_value(0, 1, 14, 1), 106_463);
    assert_eq!(uct_value(0, 1, 16, 1), 109_124);
    assert_eq!(uct_value(0, 1, 2, 1), 54_562);
    assert_eq!(uct_value(0, 1, 1, 1), 0);
    assert_eq!(uct_value(0, 1, 0, 1000), 0);
    assert_eq!(uct_value(5, 1, 0, 7), 5 * 65_536);
}

#[test]
fn bonus_is_less_than_an_8192nd_below_the_formula() {
    for parent in (1..400u64).chain([65_536, 1_000_003, 4_294_967_295]) {
        for visits in (1..400u64).chain([65_536, 1_000_003, 4_294_967_295]) {
            let bonus = uct_value(0, visits, parent, 1) as f64 / (65_536.0 * visits as f64);
            let exact = ((parent as f64).ln() / visits as f64).sqrt();
            assert!(bonus <= exact + 1e-12, "{} {}", parent, visits);
            assert!(exact - bonus < 1.0 / 8192.0, "{} {}", parent, visits);
        }
    }
}

#[test]
fn close_scores_are_ordered_as_the_formula_orders_them() {
    // A parent visited 13 times: 0 / 2 + sqrt(ln 13 / 2) = 1.1325 is above
    // 7 / 11 + sqrt(ln 13 / 11) = 1.1192.
    let first = uct_value(0, 2, 13, 1);
    let second = uct_value(7, 11, 13, 1);
    assert_eq!(first, 148_434);
    assert_eq!(second, 806_858);
    assert!(uct_above(first, 2, second, 11));
    assert!(!uct_above(second, 11, first, 2));
}

#[test]
fn score_adds_the_exploration_bonus() {
    assert_eq!(uct_value(0, 2, 4, 1000), 109_124_000);
    assert_eq!(uct_value(300, 3, 14, 1000), 204_061_800);
    assert_eq!(uct_value(900, 10, 14, 1000), 395_642_400);
    assert_eq!(uct_value(50, 1, 14, 1000), 109_739_800);
}

#[test]
fn score_without_exploration_is_the_sum_of_outcomes() {
    assert_eq!(uct_value(300, 3, 14, 0), 19_660_800);
    assert_eq!(uct_value(-7, 3, 1_000_000, 0), -7 * 65_536);
}

#[test]
fn score_at_the_limits_fits() {
    assert_eq!(
        uct_value(4_294_967_295_000, 4_294_967_295, 4_294_967_295, 4_294_967_295),
        74_068_451_237_123_588_100
    );
}

#[test]
fn scores_are_compared_as_fractions() {
    // 300 / 3 against 900 / 10: the mean of 100 is above the mean of 90.
    let a = uct_value(300, 3, 14, 0);
    let b = uct_value(900, 10, 14, 0);
    assert!(uct_above(a, 3, b, 10));
    assert!(!uct_above(b, 10, a, 3));
    // 1 / 3 against 333 / 1000: a third is above 0.333.
    let a = uct_value(1, 3, 14, 0);
    let b = uct_value(333, 1000, 14, 0);
    assert!(uct_above(a, 3, b, 1000));
    // Equal means are not above each other.
    let a = uct_value(2, 4, 14, 0);
    let b = uct_value(5, 10, 14, 0);
    assert!(!uct_above(a, 4, b, 10));
    assert!(!uct_above(b, 10, a, 4));
}

#[test]
fn exploration_favours_the_less_visited_child() {
    let often = uct_value(900, 10, 14, 1000);
    let seldom = uct_value(50, 1, 14, 1000);
    assert!(uct_above(seldom, 1, often, 10));
    let often = uct_value(900, 10, 14, 0);
    let seldom = uct_value(50, 1, 14, 0);
    assert!(uct_above(often, 10, seldom, 1));
}
