use simplehash::fnv::{Fnv1aHasher32, Fnv1aHasher64, FnvHasher32, FnvHasher64};
use simplehash::{fnv1_32, fnv1_64, fnv1a_32, fnv1a_64};
use std::hash::Hasher;

fn fnv_input(len: usize) -> Vec<u8> {
    (0..len).map(|i| i as u8).collect()
}

#[test]
fn test_fnv1_32() {
    let data1 = b"hello";
    let result = fnv1_32(data1);
    println!("FNV1-32 for 'hello': 0x{:x} ({})", result, result);
    assert_eq!(result, 0xb6fa7167);
}

#[test]
fn test_fnv1a_32() {
    let data1 = b"hello";
    let result = fnv1a_32(data1);
    println!("FNV1a-32 for 'hello': 0x{:x} ({})", result, result);
    assert_eq!(result, 0x4f9f2cab);
}

#[test]
fn test_fnv1_64() {
    let data1 = b"hello";
    let result = fnv1_64(data1);
    println!("FNV1-64 for 'hello': 0x{:x} ({})", result, result);
    assert_eq!(result, 0x7b495389bdbdd4c7);
}

#[test]
fn test_fnv1a_64() {
    let data1 = b"hello";
    let result = fnv1a_64(data1);
    println!("FNV1a-64 for 'hello': 0x{:x} ({})", result, result);
    assert_eq!(result, 0xa430d84680aabd0b);
}

#[test]
fn fnv_empty_input_is_offset_basis() {
    assert_eq!(fnv1_32(b""), 0x811c9dc5);
    assert_eq!(fnv1a_32(b""), 0x811c9dc5);
    assert_eq!(fnv1_64(b""), 0xcbf29ce484222325);
    assert_eq!(fnv1a_64(b""), 0xcbf29ce484222325);
    assert_eq!(FnvHasher32::new().finish_raw(), 0x811c9dc5);
    assert_eq!(Fnv1aHasher32::new().finish_raw(), 0x811c9dc5);
    assert_eq!(FnvHasher64::new().finish_raw(), 0xcbf29ce484222325);
    assert_eq!(Fnv1aHasher64::new().finish_raw(), 0xcbf29ce484222325);
}

#[test]
fn fnv_single_byte_shows_operand_order() {
    // one byte `a`: FNV-1 is (offset * prime) ^ a, FNV-1a is (offset ^ a) * prime
    assert_eq!(fnv1_32(b"a"), 0x811c9dc5u32.wrapping_mul(0x01000193) ^ 0x61);
    assert_eq!(fnv1a_32(b"a"), (0x811c9dc5u32 ^ 0x61).wrapping_mul(0x01000193));
    assert_eq!(fnv1_32(b"a"), 0x050c5d7e);
    assert_eq!(fnv1a_32(b"a"), 0xe40c292c);
    assert_eq!(fnv1_64(b"a"), 0xaf63bd4c8601b7be);
    assert_eq!(fnv1a_64(b"a"), 0xaf63dc4c8601ec8c);
}

#[test]
fn fnv_boundary_lengths() {
    let expected: [(usize, u32, u32, u64, u64); 12] = [
        (0, 0x811c9dc5, 0x811c9dc5, 0xcbf29ce484222325, 0xcbf29ce484222325),
        (1, 0x050c5d1f, 0x050c5d1f, 0xaf63bd4c8601b7df, 0xaf63bd4c8601b7df),
        (3, 0x49b0f626, 0x22ae7a28, 0xd94d11186c0f2e06, 0xd949aa186c0c4928),
        (4, 0x27937dd1, 0xc3aa51b1, 0x4d22127f9dcb3431, 0x4475327f98e05411),
        (7, 0xf3fee106, 0xe4991188, 0xa235a6fae0c6fee6, 0x841bdba5e4298608),
        (8, 0x203c3c75, 0x6bf6a41d, 0x6829a24bf22320d5, 0xa4dc49e2b28ecb7d),
        (15, 0xca415ace, 0x8d1126b8, 0x49f912a7993c80ae, 0xb6b4c29669075e38),
        (16, 0x32e1f245, 0xc8fff215, 0xeebb60c961cea7a5, 0x7c84dc9477851775),
        (17, 0x5eb0628f, 0x6fe9fddf, 0x770d1b313226dd4f, 0x1ada35471726c09f),
        (31, 0x7798e97e, 0x4b84d038, 0x3fd7dcc63786d55e, 0x3169064b80f155b8),
        (32, 0xc3b79145, 0x0913ad65, 0x02a182d05a1c8ea5, 0xe6cb594c1a148ac5),
        (33, 0x5ef9afbf, 0x8ef9c39f, 0x94ffed091e86627f, 0x4013a15050e8031f),
    ];
    for &(len, h1_32, h1a_32, h1_64, h1a_64) in expected.iter() {
        let data = fnv_input(len);
        assert_eq!(fnv1_32(&data), h1_32, "fnv1_32 at length {}", len);
        assert_eq!(fnv1a_32(&data), h1a_32, "fnv1a_32 at length {}", len);
        assert_eq!(fnv1_64(&data), h1_64, "fnv1_64 at length {}", len);
        assert_eq!(fnv1a_64(&data), h1a_64, "fnv1a_64 at length {}", len);
    }
}

#[test]
fn fnv_is_deterministic() {
    let data = b"the same bytes";
    assert_eq!(fnv1_32(data), fnv1_32(data));
    assert_eq!(fnv1a_32(data), fnv1a_32(data));
    assert_eq!(fnv1_64(data), fnv1_64(data));
    assert_eq!(fnv1a_64(data), fnv1a_64(data));
}

#[test]
fn fnv_one_changed_bit_changes_the_hash() {
    assert_ne!(fnv1a_64(b"hello world"), fnv1a_64(b"hello worlD"));
    assert_ne!(fnv1_64(b"hello world"), fnv1_64(b"hello worlD"));
    assert_ne!(fnv1a_32(b"hello world"), fnv1a_32(b"hello worlD"));
    assert_ne!(fnv1_32(b"hello world"), fnv1_32(b"hello worlD"));
}

#[test]
fn fnv_hashers_ignore_how_input_is_split() {
    let data = fnv_input(33);
    for cut in 0..=data.len() {
        let (a, b) = data.split_at(cut);
        let mut h = FnvHasher32::new();
        h.write(a);
        h.write(b);
        assert_eq!(h.finish_raw(), fnv1_32(&data));
        assert_eq!(h.finish(), fnv1_32(&data) as u64);
        let mut h = Fnv1aHasher32::default();
        h.write(a);
        h.write(b);
        assert_eq!(h.finish_raw(), fnv1a_32(&data));
        let mut h = FnvHasher64::new();
        h.write(a);
        h.write(b);
        assert_eq!(h.finish_raw(), fnv1_64(&data));
        let mut h = Fnv1aHasher64::default();
        h.write(a);
        h.write(b);
        assert_eq!(h.finish(), fnv1a_64(&data));
    }
}

#[test]
fn fnv_finish_can_be_asked_twice() {
    let mut h = Fnv1aHasher64::new();
    h.write(b"abc");
    let first = h.finish();
    assert_eq!(h.finish(), first);
    h.write(b"def");
    assert_eq!(h.finish(), fnv1a_64(b"abcdef"));
}
