use tabular_rl::algorithms::dyna_q::converging_alpha;
use tabular_rl::fixed::{Fixed, SCALE};

#[test]
fn addition_and_subtraction_are_exact() {
    assert_eq!(Fixed(250_000).add(Fixed(750_000)), Fixed(1_000_000));
    assert_eq!(Fixed(-1_000_000).add(Fixed(250_000)), Fixed(-750_000));
    assert_eq!(Fixed(250_000).sub(Fixed(750_000)), Fixed(-500_000));
}

#[test]
fn addition_saturates_at_the_bounds() {
    assert_eq!(Fixed(i64::MAX).add(Fixed(1)), Fixed(i64::MAX));
    assert_eq!(Fixed(i64::MIN).sub(Fixed(1)), Fixed(i64::MIN));
    assert_eq!(Fixed(i64::MIN).neg(), Fixed(i64::MAX));
}

#[test]
fn multiplication_truncates_toward_zero() {
    // 3.5 * 2 = 7
    assert_eq!(Fixed(3_500_000).mul(Fixed(2_000_000)), Fixed(7_000_000));
    // 0.1 * 0.1 = 0.01
    assert_eq!(Fixed(100_000).mul(Fixed(100_000)), Fixed(10_000));
    // (-1.5) * 0.333333 truncates toward zero
    assert_eq!(Fixed(-1_500_000).mul(Fixed(333_333)), Fixed(-499_999));
    // multiplying by one is exact
    assert_eq!(Fixed(123_456_789).mul(Fixed(SCALE)), Fixed(123_456_789));
}

#[test]
fn division_truncates_toward_zero() {
    // 1 / 3 = 0.333333
    assert_eq!(Fixed(1_000_000).div(Fixed(3_000_000)), Fixed(333_333));
    // -1 / 3 truncates toward zero, not downward
    assert_eq!(Fixed(-1_000_000).div(Fixed(3_000_000)), Fixed(-333_333));
    // averaging by a count
    assert_eq!(Fixed(10_000_000).div_count(4), Fixed(2_500_000));
    assert_eq!(Fixed(-1).div_count(2), Fixed(0));
}

#[test]
fn absolute_value_and_max() {
    assert_eq!(Fixed(-250_000).abs(), Fixed(250_000));
    assert_eq!(Fixed(250_000).abs(), Fixed(250_000));
    assert_eq!(Fixed(1).max(Fixed(2)), Fixed(2));
    assert_eq!(Fixed(-1).max(Fixed(-2)), Fixed(-1));
}

#[test]
fn converging_rate_follows_the_square_root() {
    // 1 / sqrt(1) = 1
    assert_eq!(converging_alpha(0), Fixed(1_000_000));
    // 1 / sqrt(4) = 0.5
    assert_eq!(converging_alpha(3), Fixed(500_000));
    // 1 / sqrt(100) = 0.1
    assert_eq!(converging_alpha(99), Fixed(100_000));
}
