use spikenorm::natural::Natural;

fn wide(value: u128) -> Natural {
    let high = Natural::from_u64((value >> 64) as u64).doubled(64);
    high.plus(&Natural::from_u64(value as u64))
}

fn same(first: &Natural, second: &Natural) -> bool {
    !first.is_less(second) && !second.is_less(first)
}

#[test]
fn small_numbers_are_ordered_as_they_are() {
    let three = Natural::from_u64(3);
    let five = Natural::from_u64(5);
    assert!(three.is_less(&five));
    assert!(!five.is_less(&three));
    assert!(!three.is_less(&three));
    assert!(Natural::from_u64(0).is_less(&three));
    assert!(!three.is_less(&Natural::from_u64(0)));
}

#[test]
fn products_grow_past_one_limb() {
    let most = Natural::from_u64(u64::MAX);
    let square = most.times(u64::MAX);
    let expected = (u64::MAX as u128) * (u64::MAX as u128);
    assert!(same(&square, &wide(expected)));
    assert!(wide(expected - 1).is_less(&square));
    assert!(square.is_less(&wide(expected + 1)));
    assert!(same(&Natural::from_u64(3).times(5), &Natural::from_u64(15)));
    assert!(same(&most.times(0), &Natural::from_u64(0)));
}

#[test]
fn sums_carry_into_the_next_limb() {
    let most = Natural::from_u64(u64::MAX);
    let sum = most.plus(&Natural::from_u64(1));
    assert!(same(&sum, &wide(1u128 << 64)));
    assert!(most.is_less(&sum));
    let big = wide(u128::MAX);
    let more = big.plus(&Natural::from_u64(1));
    assert!(big.is_less(&more));
    assert!(same(&more, &Natural::from_u64(1).doubled(128)));
    assert!(same(&big.plus(&big), &big.times(2)));
}

#[test]
fn doubling_is_multiplying_by_a_power_of_two() {
    let seven = Natural::from_u64(7);
    assert!(same(&seven.doubled(0), &seven));
    assert!(same(&seven.doubled(3), &Natural::from_u64(56)));
    assert!(same(&seven.doubled(70), &wide(7u128 << 70)));
    assert!(same(&seven.doubled(200), &seven.doubled(100).doubled(100)));
    assert!(seven.doubled(199).is_less(&seven.doubled(200)));
}

#[test]
fn numbers_of_different_length_compare_by_value() {
    let short = Natural::from_u64(9);
    let long = Natural::from_u64(1).doubled(300);
    assert!(short.is_less(&long));
    assert!(!long.is_less(&short));
    let zero_long = Natural::from_u64(u64::MAX).times(u64::MAX).times(0);
    assert!(same(&zero_long, &Natural::from_u64(0)));
    assert!(zero_long.is_less(&short));
}
