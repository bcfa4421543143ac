use simplehash::Uint128;

#[test]
fn test_uint128_conversion() {
    let low = 0x1234567890ABCDEF;
    let high = 0xFEDCBA0987654321;

    let u128 = Uint128::new(low, high);
    let tuple: (u64, u64) = u128.into();

    assert_eq!(tuple.0, low);
    assert_eq!(tuple.1, high);

    let u128_from_tuple = Uint128::from(tuple);
    assert_eq!(u128_from_tuple.low, low);
    assert_eq!(u128_from_tuple.high, high);
}

#[test]
fn uint128_halves_are_kept_apart() {
    let value = Uint128::new(1, 2);
    assert_eq!(value.low, 1);
    assert_eq!(value.high, 2);
    assert_eq!(value, Uint128::from((1, 2)));
    assert_ne!(value, Uint128::new(2, 1));
}
