use simplehash::bits::{fetch32, fetch64, fetch_partial32, rotate_left32};

#[test]
fn words_are_read_lowest_byte_first() {
    let bytes = [0x01u8, 0x02, 0x03, 0x04, 0x05, 0x06, 0x07, 0x08, 0x09];
    assert_eq!(fetch32(&bytes, 0), 0x04030201);
    assert_eq!(fetch32(&bytes, 5), 0x09080706);
    assert_eq!(fetch64(&bytes, 0), 0x0807060504030201);
    assert_eq!(fetch64(&bytes, 1), 0x0908070605040302);
}

#[test]
fn partial_words_are_padded_with_zero() {
    let bytes = [0xaau8, 0xbb, 0xcc, 0xdd, 0xee];
    assert_eq!(fetch_partial32(&bytes, 0, 0), 0);
    assert_eq!(fetch_partial32(&bytes, 0, 1), 0xaa);
    assert_eq!(fetch_partial32(&bytes, 0, 2), 0xbbaa);
    assert_eq!(fetch_partial32(&bytes, 1, 3), 0xddccbb);
    assert_eq!(fetch_partial32(&bytes, 1, 4), 0xeeddccbb);
    assert_eq!(fetch_partial32(&bytes, 5, 0), 0);
}

#[test]
fn rotation_wraps_the_high_bits_around() {
    assert_eq!(rotate_left32(0x80000000, 1), 1);
    assert_eq!(rotate_left32(0x12345678, 8), 0x34567812);
    assert_eq!(rotate_left32(0x12345678, 13), 0x12345678u32.rotate_left(13));
    assert_eq!(rotate_left32(1, 31), 0x80000000);
}
