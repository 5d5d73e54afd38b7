use la_porra::arith::mul_div;

#[test]
fn mul_div_small_values() {
    assert_eq!(mul_div(7, 3, 2), 10);
    assert_eq!(mul_div(50, 150, 100), 75);
    assert_eq!(mul_div(100, 400, 300), 133);
    assert_eq!(mul_div(1, 1, 2), 0);
    assert_eq!(mul_div(0, 12345, 7), 0);
    assert_eq!(mul_div(12345, 0, 7), 0);
    assert_eq!(mul_div(6, 7, 1), 42);
}

#[test]
fn mul_div_wide_products() {
    assert_eq!(mul_div(u128::MAX, u128::MAX, u128::MAX), u128::MAX);
    assert_eq!(mul_div(1u128 << 100, 1u128 << 100, 1u128 << 80), 1u128 << 120);
    assert_eq!(mul_div((1u128 << 64) + 1, (1u128 << 64) - 1, (1u128 << 64) + 1), (1u128 << 64) - 1);
    assert_eq!(mul_div((1u128 << 127) - 1, 6, 4), 3 * (1u128 << 126) - 2);
    assert_eq!(mul_div(u128::MAX - 1, u128::MAX, u128::MAX), u128::MAX - 1);
    assert_eq!(mul_div(u128::MAX, u128::MAX - 1, u128::MAX), u128::MAX - 1);
    assert_eq!(mul_div(u128::MAX - 1, u128::MAX - 1, u128::MAX), u128::MAX - 2);
}
